use sudoku_solver::Cell;

#[test]
fn singleton_holds_one_value() {
    let c = Cell::singleton(5);
    assert_eq!(c, Cell(32));
    assert!(c.get(5));
    assert!(!c.get(4));
    assert!(!c.get(6));
    assert_eq!(c.num_choices(), 1);
    assert_eq!(c.get_value(), 5);
}

#[test]
fn singleton_of_the_smallest_and_the_largest_value() {
    assert_eq!(Cell::singleton(0), Cell(1));
    assert_eq!(Cell::singleton(0).get_value(), 0);
    assert_eq!(Cell::singleton(15), Cell(32768));
    assert_eq!(Cell::singleton(15).get_value(), 15);
}

#[test]
fn empty_cell_has_no_choice() {
    let c = Cell::empty();
    assert_eq!(c, Cell(0));
    assert_eq!(c.num_choices(), 0);
    for v in 0..16 {
        assert!(!c.get(v));
    }
}

#[test]
fn get_tells_the_members_apart() {
    let c = Cell(0b0000_0010_0100_1000);
    for v in 0..16 {
        assert_eq!(c.get(v), v == 3 || v == 6 || v == 9);
    }
    assert_eq!(c.num_choices(), 3);
}

#[test]
fn set_adds_one_value_and_keeps_the_rest() {
    let mut c = Cell(0b1010);
    c.set(2);
    assert_eq!(c, Cell(0b1110));
    c.set(2);
    assert_eq!(c, Cell(0b1110));
    c.set(15);
    assert_eq!(c, Cell(0b1000_0000_0000_1110));
}

#[test]
fn clear_removes_one_value_and_keeps_the_rest() {
    let mut c = Cell(0b1111111110);
    c.clear(9);
    assert_eq!(c, Cell(0b0111111110));
    c.clear(9);
    assert_eq!(c, Cell(0b0111111110));
    c.clear(1);
    assert_eq!(c, Cell(0b0111111100));
    assert_eq!(c.num_choices(), 7);
}

#[test]
fn set_value_discards_what_was_possible() {
    let mut c = Cell(0b1111111110);
    c.set_value(7);
    assert_eq!(c, Cell(128));
    assert_eq!(c.num_choices(), 1);
    assert_eq!(c.get_value(), 7);
    let mut e = Cell::empty();
    e.set_value(3);
    assert_eq!(e, Cell::singleton(3));
}

#[test]
fn num_choices_counts_every_bit() {
    assert_eq!(Cell(0).num_choices(), 0);
    assert_eq!(Cell(0xffff).num_choices(), 16);
    assert_eq!(Cell(0b1111111110).num_choices(), 9);
    assert_eq!(Cell(0x8001).num_choices(), 2);
}

#[test]
fn get_value_finds_each_single_value() {
    for v in 0..16 {
        assert_eq!(Cell(1 << v).get_value(), v);
    }
}
