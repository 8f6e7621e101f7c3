//! Candidate sets of single cells, and the grid of 81 of them.

use vstd::prelude::*;
use vstd::string::StringExecFns;
use std::ops::{Index, IndexMut};

verus! {

/// Whether bit `k` of `bits` is set. False for every `k` outside `0..16`.
pub open spec fn has_bit(bits: u16, k: int) -> bool {
    0 <= k < 16 && bits & (1u16 << (k as u16)) != 0
}

/// The number of set bits of `bits` among the positions below `n`.
pub open spec fn bits_below(bits: u16, n: nat) -> nat
    decreases n,
{
    if n == 0 {
        0
    } else {
        bits_below(bits, (n - 1) as nat) + if has_bit(bits, n - 1) {
            1nat
        } else {
            0nat
        }
    }
}

/// `u16::count_ones` of the standard library: the number of ones in the binary
/// representation of the argument, that is the number of positions below 16
/// whose bit is set.
pub assume_specification[ u16::count_ones ](i: u16) -> (r: u32)
    ensures
        r == bits_below(i, 16),
;

/// The values whose bit is set in `bits`, among those below `n`.
spec fn values_below(bits: u16, n: int) -> Set<int> {
    Set::new(|v: int| v < n && has_bit(bits, v))
}

/// There are as many values below `n` whose bit is set as set bits below `n`.
proof fn lemma_values_below(bits: u16, n: nat)
    requires
        n <= 16,
    ensures
        values_below(bits, n as int).finite(),
        values_below(bits, n as int).len() == bits_below(bits, n),
    decreases n,
{
    if n == 0 {
        assert(values_below(bits, 0) =~= Set::<int>::empty());
    } else {
        lemma_values_below(bits, (n - 1) as nat);
        let prev = values_below(bits, n - 1);
        if has_bit(bits, n - 1) {
            assert(values_below(bits, n as int) =~= prev.insert(n - 1));
        } else {
            assert(values_below(bits, n as int) =~= prev);
        }
    }
}

/// The candidates of one cell: a set of values below 16, one bit for each.
#[derive(Debug, Clone, Copy, PartialEq, Eq, Structural)]
pub struct Cell(pub u16);

impl View for Cell {
    type V = Set<int>;

    /// The set of the values that are still possible.
    open spec fn view(&self) -> Set<int> {
        Set::new(|v: int| has_bit(self.0, v))
    }
}

impl Cell {
    /// A candidate set is finite, holds only values below 16, and its size is
    /// the number of set bits.
    pub proof fn lemma_view(self)
        ensures
            self@.finite(),
            self@.len() == bits_below(self.0, 16),
            self@.len() <= 16,
            forall|v: int| self@.contains(v) ==> 0 <= v < 16,
    {
        lemma_values_below(self.0, 16);
        assert(self@ =~= values_below(self.0, 16));
        lemma_bits_below_bound(self.0, 16);
    }

    /// Two cells with the same candidates are the same cell.
    pub proof fn lemma_view_injective(self, other: Cell)
        requires
            self@ == other@,
        ensures
            self == other,
    {
        let a = self.0;
        let b = other.0;
        assert forall|k: int| 0 <= k < 16 implies has_bit(a, k) == has_bit(b, k) by {
            assert(self@.contains(k) == other@.contains(k));
            assert(self@.contains(k) == has_bit(a, k));
            assert(other@.contains(k) == has_bit(b, k));
        }
        assert(has_bit(a, 0) == has_bit(b, 0) && has_bit(a, 1) == has_bit(b, 1) && has_bit(a, 2)
            == has_bit(b, 2) && has_bit(a, 3) == has_bit(b, 3) && has_bit(a, 4) == has_bit(b, 4)
            && has_bit(a, 5) == has_bit(b, 5) && has_bit(a, 6) == has_bit(b, 6) && has_bit(a, 7)
            == has_bit(b, 7));
        assert(has_bit(a, 8) == has_bit(b, 8) && has_bit(a, 9) == has_bit(b, 9) && has_bit(a, 10)
            == has_bit(b, 10) && has_bit(a, 11) == has_bit(b, 11) && has_bit(a, 12) == has_bit(
            b,
            12,
        ) && has_bit(a, 13) == has_bit(b, 13) && has_bit(a, 14) == has_bit(b, 14) && has_bit(a, 15)
            == has_bit(b, 15));
        assert(a == b) by (bit_vector)
            requires
                (a & (1u16 << 0u16) != 0) == (b & (1u16 << 0u16) != 0),
                (a & (1u16 << 1u16) != 0) == (b & (1u16 << 1u16) != 0),
                (a & (1u16 << 2u16) != 0) == (b & (1u16 << 2u16) != 0),
                (a & (1u16 << 3u16) != 0) == (b & (1u16 << 3u16) != 0),
                (a & (1u16 << 4u16) != 0) == (b & (1u16 << 4u16) != 0),
                (a & (1u16 << 5u16) != 0) == (b & (1u16 << 5u16) != 0),
                (a & (1u16 << 6u16) != 0) == (b & (1u16 << 6u16) != 0),
                (a & (1u16 << 7u16) != 0) == (b & (1u16 << 7u16) != 0),
                (a & (1u16 << 8u16) != 0) == (b & (1u16 << 8u16) != 0),
                (a & (1u16 << 9u16) != 0) == (b & (1u16 << 9u16) != 0),
                (a & (1u16 << 10u16) != 0) == (b & (1u16 << 10u16) != 0),
                (a & (1u16 << 11u16) != 0) == (b & (1u16 << 11u16) != 0),
                (a & (1u16 << 12u16) != 0) == (b & (1u16 << 12u16) != 0),
                (a & (1u16 << 13u16) != 0) == (b & (1u16 << 13u16) != 0),
                (a & (1u16 << 14u16) != 0) == (b & (1u16 << 14u16) != 0),
                (a & (1u16 << 15u16) != 0) == (b & (1u16 << 15u16) != 0),
        ;
    }

    /// The cell in which nothing is possible.
    pub fn empty() -> (c: Cell)
        ensures
            c@ == Set::<int>::empty(),
    {
        let c = Cell(0);
        proof {
            assert(forall|k: u16| k < 16 ==> 0u16 & (1u16 << k) == 0) by (bit_vector);
            assert forall|v: int| !c@.contains(v) by {
                if 0 <= v < 16 {
                    assert((v as u16) < 16);
                }
            }
            assert(c@ =~= Set::<int>::empty());
        }
        c
    }

    /// The cell in which `val` alone is possible.
    pub fn singleton(val: usize) -> (c: Cell)
        requires
            val < 16,
        ensures
            c@ == set![val as int],
    {
        let c = Cell(1u16 << val);
        proof {
            let v = val as u16;
            assert(forall|k: u16| k < 16 ==> (((1u16 << v) & (1u16 << k) != 0) <==> k == v))
                by (bit_vector)
                requires
                    v < 16,
            ;
            assert forall|k: int| c@.contains(k) == (k == val) by {
                if 0 <= k < 16 {
                    assert((k as u16) < 16);
                }
            }
            assert(c@ =~= set![val as int]);
        }
        c
    }

    /// Whether `index` is still possible.
    pub fn get(&self, index: usize) -> (b: bool)
        requires
            index < 16,
        ensures
            b == self@.contains(index as int),
    {
        (self.0 & (1u16 << index)) > 0
    }

    /// Makes `index` possible.
    pub fn set(&mut self, index: usize)
        requires
            index < 16,
        ensures
            final(self)@ == old(self)@.insert(index as int),
    {
        let ghost before = self.0;
        self.0 = self.0 | (1u16 << index);
        proof {
            let i = index as u16;
            let after = self.0;
            assert(forall|k: u16|
                k < 16 ==> ((after & (1u16 << k) != 0) <==> (k == i || before & (1u16 << k) != 0)))
                by (bit_vector)
                requires
                    i < 16,
                    after == before | (1u16 << i),
            ;
            assert forall|k: int|
                self@.contains(k) == (k == index || old(self)@.contains(k)) by {
                if 0 <= k < 16 {
                    assert((k as u16) < 16);
                }
            }
            assert(self@ =~= old(self)@.insert(index as int));
        }
    }

    /// Rules `index` out.
    pub fn clear(&mut self, index: usize)
        requires
            index < 16,
        ensures
            final(self)@ == old(self)@.remove(index as int),
    {
        let ghost before = self.0;
        self.0 = self.0 & !(1u16 << index);
        proof {
            let i = index as u16;
            let after = self.0;
            assert(forall|k: u16|
                k < 16 ==> ((after & (1u16 << k) != 0) <==> (k != i && before & (1u16 << k) != 0)))
                by (bit_vector)
                requires
                    i < 16,
                    after == before & !(1u16 << i),
            ;
            assert forall|k: int|
                self@.contains(k) == (k != index && old(self)@.contains(k)) by {
                if 0 <= k < 16 {
                    assert((k as u16) < 16);
                }
            }
            assert(self@ =~= old(self)@.remove(index as int));
        }
    }

    /// The number of values that are still possible.
    pub fn num_choices(&self) -> (n: usize)
        ensures
            n == self@.len(),
    {
        proof {
            self.lemma_view();
        }
        self.0.count_ones() as usize
    }

    /// The one value that is possible, for a cell that has exactly one.
    pub fn get_value(&self) -> (v: usize)
        requires
            self@.len() == 1,
        ensures
            self@ == set![v as int],
            self@.contains(v as int),
            v == value_of(self@),
            v < 16,
    {
        let v = self.0.trailing_zeros() as usize;
        proof {
            let bits = self.0;
            self.lemma_view();
            vstd::std_specs::bits::axiom_u16_trailing_zeros(bits);
            if bits == 0 {
                assert forall|k: int| !self@.contains(k) by {
                    if 0 <= k < 16 {
                        let kk = k as u16;
                        assert(0u16 & (1u16 << kk) == 0) by (bit_vector);
                    }
                }
                assert(self@ =~= Set::<int>::empty());
            }
            let t = vstd::std_specs::bits::u16_trailing_zeros(bits) as u16;
            assert(bits & (1u16 << t) != 0) by (bit_vector)
                requires
                    t < 16,
                    (bits >> t) & 1u16 == 1u16,
            ;
            assert(self@.contains(v as int));
            lemma_value_of(self@, v as int);
        }
        v
    }

    /// Makes `index` the one possible value, whatever was possible before.
    pub fn set_value(&mut self, index: usize)
        requires
            index < 16,
        ensures
            final(self)@ == set![index as int],
    {
        let c = Cell::singleton(index);
        self.0 = c.0;
    }
}

/// Among `n` positions at most `n` bits are set.
proof fn lemma_bits_below_bound(bits: u16, n: nat)
    ensures
        bits_below(bits, n) <= n,
    decreases n,
{
    if n > 0 {
        lemma_bits_below_bound(bits, (n - 1) as nat);
    }
}

/// A candidate set with exactly one value left.
pub open spec fn determined(c: Set<int>) -> bool {
    c.finite() && c.len() == 1
}

/// The one value of a determined candidate set.
pub open spec fn value_of(c: Set<int>) -> int {
    c.choose()
}

/// A finite set of size one that holds `v` holds nothing else.
pub proof fn lemma_only_member(s: Set<int>, v: int)
    requires
        s.finite(),
        s.len() == 1,
        s.contains(v),
    ensures
        s == set![v],
{
    assert(s.remove(v).len() == 0);
    assert(s.remove(v) =~= Set::<int>::empty());
    assert(s =~= set![v]);
}

/// The value of a determined candidate set is its one member.
pub proof fn lemma_value_of(c: Set<int>, v: int)
    requires
        determined(c),
        c.contains(v),
    ensures
        value_of(c) == v,
        c == set![v],
{
    lemma_only_member(c, v);
    assert(c.contains(c.choose()));
}


/// The digits of the puzzle: 1 to 9.
pub open spec fn digits() -> Set<int> {
    Set::new(|v: int| 1 <= v <= 9)
}

/// There are nine digits.
pub proof fn lemma_digits()
    ensures
        digits().finite(),
        digits().len() == 9,
{
    vstd::set_lib::lemma_int_range(1, 10);
    assert(digits() =~= vstd::set_lib::set_int_range(1, 10));
}

/// The grid: 81 cells in row-major order.
pub struct BitCube {
    pub storage: [Cell; 81],
}

impl View for BitCube {
    type V = Seq<Set<int>>;

    /// The candidate sets of the 81 cells, by linear index.
    open spec fn view(&self) -> Seq<Set<int>> {
        Seq::new(81, |i: int| self.storage[i]@)
    }
}

impl Clone for BitCube {
    /// An independent copy of the grid.
    fn clone(&self) -> (copy: Self)
        ensures
            copy == *self,
    {
        BitCube { storage: self.storage }
    }
}

impl BitCube {
    /// The grid in which every digit is possible in every cell.
    pub fn new() -> (grid: BitCube)
        ensures
            grid@ == Seq::new(81, |i: int| digits()),
            forall|i: int| 0 <= i < 81 ==> (#[trigger] grid@[i]).len() == 9,
    {
        let nine_set: u16 = 0b1111111110;
        let grid = BitCube { storage: [Cell(nine_set); 81] };
        proof {
            assert(forall|k: u16| k < 16 ==> ((0b1111111110u16 & (1u16 << k) != 0) <==> 1 <= k <= 9))
                by (bit_vector);
            assert forall|i: int| 0 <= i < 81 implies grid@[i] == digits() by {
                assert(grid.storage[i] == Cell(nine_set));
                assert forall|v: int| grid@[i].contains(v) == digits().contains(v) by {
                    if 0 <= v < 16 {
                        assert((v as u16) < 16);
                    }
                }
                assert(grid@[i] =~= digits());
            }
            assert(grid@ =~= Seq::new(81, |i: int| digits()));
            lemma_digits();
        }
        grid
    }
}

impl Index<usize> for BitCube {
    type Output = Cell;

    /// The cell with linear index `index`.
    fn index(&self, index: usize) -> (cell: &Cell)
        ensures
            *cell == self.storage[index as int],
            cell@ == self@[index as int],
    {
        &self.storage[index]
    }
}

impl vstd::std_specs::core::IndexSpecImpl<usize> for BitCube {
    /// A grid is indexed by a linear index below 81.
    open spec fn index_req(&self, index: &usize) -> bool {
        *index < 81
    }
}

impl IndexMut<usize> for BitCube {
    /// The cell with linear index `index`, to be changed in place.
    fn index_mut(&mut self, index: usize) -> (cell: &mut Cell)
        requires
            index < 81,
        ensures
            *cell == old(self).storage[index as int],
            final(self).storage@ == old(self).storage@.update(index as int, *final(cell)),
            final(self)@ == old(self)@.update(index as int, final(cell)@),
    {
        &mut self.storage[index]
    }
}


impl BitCube {
    /// Two grids with the same candidates in every cell are the same grid.
    pub proof fn lemma_view_injective(self, other: BitCube)
        requires
            self@ == other@,
        ensures
            self == other,
    {
        assert forall|i: int| 0 <= i < 81 implies self.storage[i] == other.storage[i] by {
            assert(self@[i] == other@[i]);
            self.storage[i].lemma_view_injective(other.storage[i]);
        }
        assert(self.storage =~= other.storage);
    }
}


/// The character of a digit below 10.
pub open spec fn digit_char(d: int) -> char {
    ('0' as int + d) as char
}

/// A value below 16 in decimal.
pub open spec fn value_text(v: int) -> Seq<char> {
    if v < 10 {
        seq![digit_char(v)]
    } else {
        seq!['1', digit_char(v - 10)]
    }
}

/// A cell as text: its value if it is determined, a dot if it is not.
pub open spec fn cell_text(c: Set<int>) -> Seq<char> {
    if determined(c) {
        value_text(value_of(c))
    } else {
        seq!['.']
    }
}

/// The first `n` cells of row `r` as text, a space after each.
pub open spec fn row_text(g: Seq<Set<int>>, r: int, n: int) -> Seq<char>
    decreases n,
{
    if n <= 0 {
        Seq::empty()
    } else {
        row_text(g, r, n - 1) + cell_text(g[r * 9 + n - 1]) + seq![' ']
    }
}

/// The first `n` rows as text, a line for each.
pub open spec fn grid_text(g: Seq<Set<int>>, n: int) -> Seq<char>
    decreases n,
{
    if n <= 0 {
        Seq::empty()
    } else {
        grid_text(g, n - 1) + row_text(g, n - 1, 9) + seq!['\n']
    }
}

/// A value below 16 in decimal.
fn value_str(v: usize) -> (text: &'static str)
    requires
        v < 16,
    ensures
        text@ == value_text(v as int),
{
    proof {
        reveal_strlit("0");
        reveal_strlit("1");
        reveal_strlit("2");
        reveal_strlit("3");
        reveal_strlit("4");
        reveal_strlit("5");
        reveal_strlit("6");
        reveal_strlit("7");
        reveal_strlit("8");
        reveal_strlit("9");
        reveal_strlit("10");
        reveal_strlit("11");
        reveal_strlit("12");
        reveal_strlit("13");
        reveal_strlit("14");
        reveal_strlit("15");
    }
    let text = match v {
        0 => "0",
        1 => "1",
        2 => "2",
        3 => "3",
        4 => "4",
        5 => "5",
        6 => "6",
        7 => "7",
        8 => "8",
        9 => "9",
        10 => "10",
        11 => "11",
        12 => "12",
        13 => "13",
        14 => "14",
        _ => "15",
    };
    assert(text@ =~= value_text(v as int));
    text
}

impl BitCube {
    /// The grid as text: nine lines, and in each the nine cells of a row, a
    /// space after each; a cell is its value if it is determined and a dot if
    /// it is not.
    pub fn to_string(&self) -> (text: String)
        ensures
            text@ == grid_text(self@, 9),
    {
        let mut text = String::new();
        let mut row: usize = 0;
        while row < 9
            invariant
                row <= 9,
                text@ == grid_text(self@, row as int),
            decreases 9 - row,
        {
            let ghost above = text@;
            let mut col: usize = 0;
            while col < 9
                invariant
                    row < 9,
                    col <= 9,
                    text@ == above + row_text(self@, row as int, col as int),
                decreases 9 - col,
            {
                let ghost before = text@;
                let v = self.storage[row * 9 + col];
                proof {
                    v.lemma_view();
                    reveal_strlit(".");
                    reveal_strlit(" ");
                }
                if v.num_choices() == 1 {
                    let value = v.get_value();
                    proof {
                        lemma_value_of(v@, value as int);
                    }
                    text.append(value_str(value));
                } else {
                    text.append(".");
                }
                text.append(" ");
                proof {
                    assert(v@ == self@[row * 9 + col]);
                    assert(text@ =~= before + cell_text(v@) + seq![' ']);
                    assert(text@ =~= above + row_text(self@, row as int, col + 1));
                }
                col += 1;
            }
            proof {
                reveal_strlit("\n");
            }
            text.append("\n");
            assert(text@ =~= grid_text(self@, row + 1));
            row += 1;
        }
        text
    }
}

} // verus!
