//! The geometry of the grid: rows, columns, blocks, and the peers of a cell.

use vstd::prelude::*;
use std::ops::Index;

verus! {

/// The row of the cell with linear index `i`.
pub open spec fn row_of(i: int) -> int {
    i / 9
}

/// The column of the cell with linear index `i`.
pub open spec fn col_of(i: int) -> int {
    i % 9
}

/// The block of the cell with linear index `i`, blocks counted row by row.
pub open spec fn block_of(i: int) -> int {
    (row_of(i) / 3) * 3 + col_of(i) / 3
}

/// The linear index of member `k` of row `r`.
pub open spec fn row_cell(r: int, k: int) -> int {
    r * 9 + k
}

/// The linear index of member `k` of column `c`.
pub open spec fn col_cell(c: int, k: int) -> int {
    k * 9 + c
}

/// The linear index of member `k` of block `b`.
pub open spec fn block_cell(b: int, k: int) -> int {
    ((b / 3) * 3 + k / 3) * 9 + (b % 3) * 3 + k % 3
}

/// The linear index of member `k` of unit `u`. Units 0 to 8 are the rows,
/// 9 to 17 the columns, 18 to 26 the blocks.
pub open spec fn unit_cell(u: int, k: int) -> int {
    if u < 9 {
        row_cell(u, k)
    } else if u < 18 {
        col_cell(u - 9, k)
    } else {
        block_cell(u - 18, k)
    }
}

/// Two different cells of the grid that share a row, a column or a block.
pub open spec fn peers(i: int, j: int) -> bool {
    &&& 0 <= i < 81
    &&& 0 <= j < 81
    &&& i != j
    &&& (row_of(i) == row_of(j) || col_of(i) == col_of(j) || block_of(i) == block_of(j))
}

/// Counts from 0 upwards and leaves `skip` out.
pub open spec fn skipping(k: int, skip: int) -> int {
    if k < skip {
        k
    } else {
        k + 1
    }
}

/// Entry `k` of the peer list of cell `i`: first the 8 other cells of its row,
/// then the 8 other cells of its column, then the 4 cells of its block that
/// are in neither.
pub open spec fn neighbor(i: int, k: int) -> int {
    let row = i / 9;
    let col = i % 9;
    if k < 8 {
        row * 9 + skipping(k, col)
    } else if k < 16 {
        skipping(k - 8, row) * 9 + col
    } else {
        let block_row = (row / 3) * 3;
        let block_col = (col / 3) * 3;
        (block_row + skipping((k - 16) / 2, row - block_row)) * 9 + block_col + skipping(
            (k - 16) % 2,
            col - block_col,
        )
    }
}

/// Whether `j` stands in the peer list of `i`.
pub open spec fn is_neighbor(i: int, j: int) -> bool {
    exists|k: int| 0 <= k < 20 && #[trigger] neighbor(i, k) == j
}

/// The place of peer `j` in the peer list of `i`.
pub open spec fn neighbor_rank(i: int, j: int) -> int {
    let row = i / 9;
    let col = i % 9;
    if j / 9 == row {
        if j % 9 < col {
            j % 9
        } else {
            j % 9 - 1
        }
    } else if j % 9 == col {
        if j / 9 < row {
            8 + j / 9
        } else {
            7 + j / 9
        }
    } else {
        let dr = j / 9 - (row / 3) * 3;
        let dc = j % 9 - (col / 3) * 3;
        let a = if dr < row % 3 {
            dr
        } else {
            dr - 1
        };
        let b = if dc < col % 3 {
            dc
        } else {
            dc - 1
        };
        16 + 2 * a + b
    }
}

/// The row and the column of the cell in row `r` and column `c`.
pub proof fn lemma_row_col(r: int, c: int)
    requires
        0 <= c < 9,
    ensures
        row_of(r * 9 + c) == r,
        col_of(r * 9 + c) == c,
{
}

/// Every index belongs to exactly one row, one column and one block, and is
/// found again from each of them.
pub proof fn lemma_cell_units(i: int)
    requires
        0 <= i < 81,
    ensures
        0 <= row_of(i) < 9,
        0 <= col_of(i) < 9,
        0 <= block_of(i) < 9,
        row_cell(row_of(i), col_of(i)) == i,
        col_cell(col_of(i), row_of(i)) == i,
        block_cell(block_of(i), (row_of(i) % 3) * 3 + col_of(i) % 3) == i,
{
    let r = row_of(i);
    let c = col_of(i);
    let b = (r / 3) * 3 + c / 3;
    let k = (r % 3) * 3 + c % 3;
    assert(b / 3 == r / 3 && b % 3 == c / 3);
    assert(k / 3 == r % 3 && k % 3 == c % 3);
}

/// The members of a unit are cells of the grid, all in the row, column or
/// block that the unit stands for, each at its own place in it.
pub proof fn lemma_unit_cells(u: int, k: int)
    requires
        0 <= u < 27,
        0 <= k < 9,
    ensures
        0 <= unit_cell(u, k) < 81,
        u < 9 ==> row_of(unit_cell(u, k)) == u && col_of(unit_cell(u, k)) == k,
        9 <= u < 18 ==> col_of(unit_cell(u, k)) == u - 9 && row_of(unit_cell(u, k)) == k,
        18 <= u ==> block_of(unit_cell(u, k)) == u - 18 && (row_of(unit_cell(u, k)) % 3) * 3
            + col_of(unit_cell(u, k)) % 3 == k,
{
    if u < 9 {
        lemma_row_col(u, k);
    } else if u < 18 {
        lemma_row_col(k, u - 9);
    } else {
        let b = u - 18;
        let r = (b / 3) * 3 + k / 3;
        let c = (b % 3) * 3 + k % 3;
        lemma_row_col(r, c);
        assert(r / 3 == b / 3 && r % 3 == k / 3);
        assert(c / 3 == b % 3 && c % 3 == k % 3);
    }
}

/// Entry `k` of the peer list of `i` is a peer of `i`: a cell of the grid,
/// other than `i`, in its row, column or block.
pub proof fn lemma_neighbor_is_peer(i: int, k: int)
    requires
        0 <= i < 81,
        0 <= k < 20,
    ensures
        peers(i, neighbor(i, k)),
        neighbor_rank(i, neighbor(i, k)) == k,
{
    let row = i / 9;
    let col = i % 9;
    lemma_row_col(row, col);
    let j = neighbor(i, k);
    if k < 8 {
        let c = skipping(k, col);
        lemma_row_col(row, c);
    } else if k < 16 {
        let r = skipping(k - 8, row);
        lemma_row_col(r, col);
    } else {
        let a = (k - 16) / 2;
        let b = (k - 16) % 2;
        let r = (row / 3) * 3 + skipping(a, row - (row / 3) * 3);
        let c = (col / 3) * 3 + skipping(b, col - (col / 3) * 3);
        assert(0 <= a < 2 && 0 <= b < 2 && k == 16 + 2 * a + b);
        assert(row - (row / 3) * 3 == row % 3);
        assert(col - (col / 3) * 3 == col % 3);
        assert(r / 3 == row / 3 && r != row);
        assert(c / 3 == col / 3 && c != col);
        assert(j == r * 9 + c);
        lemma_row_col(r, c);
    }
}

/// Every peer of `i` stands in the peer list of `i`, at its rank.
pub proof fn lemma_peer_is_neighbor(i: int, j: int)
    requires
        peers(i, j),
    ensures
        0 <= neighbor_rank(i, j) < 20,
        neighbor(i, neighbor_rank(i, j)) == j,
        is_neighbor(i, j),
{
    let row = i / 9;
    let col = i % 9;
    let r = j / 9;
    let c = j % 9;
    let k = neighbor_rank(i, j);
    if r == row {
        assert(neighbor(i, k) == row * 9 + c);
    } else if c == col {
        assert(neighbor(i, k) == r * 9 + col);
    } else {
        assert(r / 3 == row / 3 && c / 3 == col / 3);
        let dr = r - (row / 3) * 3;
        let dc = c - (col / 3) * 3;
        assert(dr == r % 3 && dc == c % 3);
        assert(row - (row / 3) * 3 == row % 3);
        assert(col - (col / 3) * 3 == col % 3);
        let a = if dr < row % 3 {
            dr
        } else {
            dr - 1
        };
        let b = if dc < col % 3 {
            dc
        } else {
            dc - 1
        };
        assert(0 <= a < 2 && 0 <= b < 2);
        assert(k == 16 + 2 * a + b);
        assert((k - 16) / 2 == a && (k - 16) % 2 == b);
        assert(skipping(a, row % 3) == dr);
        assert(skipping(b, col % 3) == dc);
        assert(neighbor(i, k) == r * 9 + c);
    }
    assert(neighbor(i, k) == j);
}

/// The peer list of a cell: 20 different cells, none of them the cell
/// itself, and exactly its peers.
pub proof fn lemma_neighbor_list(i: int)
    requires
        0 <= i < 81,
    ensures
        forall|k: int| 0 <= k < 20 ==> 0 <= #[trigger] neighbor(i, k) < 81 && neighbor(i, k) != i,
        forall|k1: int, k2: int|
            0 <= k1 < 20 && 0 <= k2 < 20 && k1 != k2 ==> #[trigger] neighbor(i, k1)
                != #[trigger] neighbor(i, k2),
        forall|j: int| is_neighbor(i, j) <==> peers(i, j),
{
    assert forall|k: int| 0 <= k < 20 implies 0 <= #[trigger] neighbor(i, k) < 81 && neighbor(
        i,
        k,
    ) != i by {
        lemma_neighbor_is_peer(i, k);
    }
    assert forall|k1: int, k2: int| 0 <= k1 < 20 && 0 <= k2 < 20 && k1 != k2 implies #[trigger] neighbor(
        i,
        k1,
    ) != #[trigger] neighbor(i, k2) by {
        lemma_neighbor_is_peer(i, k1);
        lemma_neighbor_is_peer(i, k2);
    }
    assert forall|j: int| is_neighbor(i, j) <==> peers(i, j) by {
        if is_neighbor(i, j) {
            let k = choose|k: int| 0 <= k < 20 && #[trigger] neighbor(i, k) == j;
            lemma_neighbor_is_peer(i, k);
        }
        if peers(i, j) {
            lemma_peer_is_neighbor(i, j);
        }
    }
}

/// The peer lists are symmetric: `j` is listed for `i` exactly if `i` is
/// listed for `j`.
pub proof fn lemma_neighbors_symmetric(i: int, j: int)
    requires
        0 <= i < 81,
        0 <= j < 81,
    ensures
        is_neighbor(i, j) <==> is_neighbor(j, i),
{
    lemma_neighbor_list(i);
    lemma_neighbor_list(j);
}


/// The peer lists of all 81 cells.
pub open spec fn peer_table() -> Seq<Seq<usize>> {
    Seq::new(81, |i: int| Seq::new(20, |k: int| neighbor(i, k) as usize))
}

/// The peer list of every cell, computed once and then only read.
pub struct Neighbors {
    table: Vec<Vec<usize>>,
}

impl View for Neighbors {
    type V = Seq<Seq<usize>>;

    /// The lists, by linear index.
    closed spec fn view(&self) -> Seq<Seq<usize>> {
        Seq::new(self.table@.len(), |i: int| self.table@[i]@)
    }
}

impl Neighbors {
    /// The table holds the peer list of each of the 81 cells.
    #[verifier::type_invariant]
    spec fn complete(self) -> bool {
        &&& self.table@.len() == 81
        &&& forall|i: int| 0 <= i < 81 ==> (#[trigger] self.table@[i])@ == peer_table()[i]
    }

    /// The peer lists of the 9 by 9 grid.
    pub fn new() -> (neighbors: Neighbors)
        ensures
            neighbors@ == peer_table(),
    {
        let mut table: Vec<Vec<usize>> = Vec::with_capacity(81);
        let mut i: usize = 0;
        while i < 81
            invariant
                i <= 81,
                table@.len() == i,
                forall|n: int| 0 <= n < i ==> (#[trigger] table@[n])@ == peer_table()[n],
            decreases 81 - i,
        {
            let list = peers_of(i);
            table.push(list);
            i += 1;
        }
        let neighbors = Neighbors { table };
        assert(neighbors@ =~= peer_table());
        neighbors
    }
}

/// The peer list of cell `i`.
fn peers_of(i: usize) -> (list: Vec<usize>)
    requires
        i < 81,
    ensures
        list@ == peer_table()[i as int],
{
    let mut list: Vec<usize> = Vec::with_capacity(9 + 9 + 9 - 3 - 3);
    let row = i / 9;
    let col = i % 9;
    // the row
    let mut j: usize = row * 9;
    while j < (row + 1) * 9
        invariant
            i < 81,
            row == i / 9,
            col == i % 9,
            row * 9 <= j <= (row + 1) * 9,
            list@.len() == if j <= i {
                j - row * 9
            } else {
                j - row * 9 - 1
            },
            forall|k: int| 0 <= k < list@.len() ==> list@[k] == neighbor(i as int, k),
        decreases (row + 1) * 9 - j,
    {
        if j != i {
            list.push(j);
        }
        j += 1;
    }
    // the column
    let mut r: usize = 0;
    while r < 9
        invariant
            i < 81,
            row == i / 9,
            col == i % 9,
            r <= 9,
            list@.len() == if r <= row {
                8 + r
            } else {
                7 + r
            },
            forall|k: int| 0 <= k < list@.len() ==> list@[k] == neighbor(i as int, k),
        decreases 9 - r,
    {
        let ind = r * 9 + col;
        if ind != i {
            list.push(ind);
        }
        r += 1;
    }
    // the block
    let block_row = (row / 3) * 3;
    let block_col = (col / 3) * 3;
    let mut bi: usize = 0;
    while bi < 3
        invariant
            i < 81,
            row == i / 9,
            col == i % 9,
            block_row == (row / 3) * 3,
            block_col == (col / 3) * 3,
            bi <= 3,
            list@.len() == if block_row + bi <= row {
                16 + 2 * bi
            } else {
                14 + 2 * bi
            },
            forall|k: int| 0 <= k < list@.len() ==> list@[k] == neighbor(i as int, k),
        decreases 3 - bi,
    {
        if block_row + bi != row {
            let mut bj: usize = 0;
            let ghost base = list@.len();
            while bj < 3
                invariant
                    i < 81,
                    row == i / 9,
                    col == i % 9,
                    block_row == (row / 3) * 3,
                    block_col == (col / 3) * 3,
                    bi < 3,
                    bj <= 3,
                    block_row + bi != row,
                    base == if block_row + bi <= row {
                        16 + 2 * bi
                    } else {
                        14 + 2 * bi
                    },
                    list@.len() == if block_col + bj <= col {
                        base + bj
                    } else {
                        base + bj - 1
                    },
                    forall|k: int| 0 <= k < list@.len() ==> list@[k] == neighbor(i as int, k),
                decreases 3 - bj,
            {
                if block_col + bj != col {
                    list.push((block_row + bi) * 9 + (block_col + bj));
                }
                bj += 1;
            }
        }
        bi += 1;
    }
    assert(list@.len() == 9 + 9 - 1 + 9 - 6);
    assert(list@ =~= peer_table()[i as int]);
    list
}

impl Index<usize> for Neighbors {
    type Output = Vec<usize>;

    /// The peer list of cell `index`.
    fn index(&self, index: usize) -> (list: &Vec<usize>)
        ensures
            list@ == peer_table()[index as int],
    {
        proof {
            use_type_invariant(self);
        }
        &self.table[index]
    }
}

impl vstd::std_specs::core::IndexSpecImpl<usize> for Neighbors {
    /// The table is indexed by a linear index below 81.
    open spec fn index_req(&self, index: &usize) -> bool {
        *index < 81
    }
}

} // verus!
