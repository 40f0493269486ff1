//! The adjacency table: for each of the 81 cells, the 20 peer cells sharing
//! its row, column, or 3x3 box. Built once and shared read-only by every
//! puzzle.

use vstd::prelude::*;

verus! {

/// The row of cell `i`.
pub open spec fn spec_row_of(i: int) -> int {
    i / 9
}

/// The column of cell `i`.
pub open spec fn spec_col_of(i: int) -> int {
    i % 9
}

/// The 3x3 box of cell `i`.
pub open spec fn spec_quad_of(i: int) -> int {
    (i % 9) / 3 + 3 * (i / 27)
}

/// Distinct cells sharing a row, column, or box.
pub open spec fn is_peer(i: int, j: int) -> bool {
    &&& 0 <= i < 81
    &&& 0 <= j < 81
    &&& i != j
    &&& (spec_row_of(i) == spec_row_of(j) || spec_col_of(i) == spec_col_of(j) || spec_quad_of(i)
        == spec_quad_of(j))
}

/// The row of cell `ix`.
pub fn row_of(ix: usize) -> (r: usize)
    requires
        ix < 81,
    ensures
        r == spec_row_of(ix as int),
{
    ix / 9
}

/// The column of cell `ix`.
pub fn col_of(ix: usize) -> (r: usize)
    requires
        ix < 81,
    ensures
        r == spec_col_of(ix as int),
{
    ix % 9
}

/// The 3x3 box of cell `ix`.
pub fn quad_of(ix: usize) -> (r: usize)
    requires
        ix < 81,
    ensures
        r == spec_quad_of(ix as int),
{
    (ix % 9) / 3 + 3 * (ix / 27)
}

/// Every entry of `row` is a peer of cell `i`.
pub open spec fn row_sound(row: Seq<usize>, i: int) -> bool {
    forall|t: int| 0 <= t < row.len() ==> is_peer(i, #[trigger] row[t] as int)
}

/// Every peer of cell `i` appears in `row`.
pub open spec fn row_complete(row: Seq<usize>, i: int) -> bool {
    forall|x: int| #[trigger] is_peer(i, x) ==> row.contains(x as usize)
}

/// The entries are in strictly ascending index order.
pub open spec fn row_sorted(row: Seq<usize>) -> bool {
    forall|t1: int, t2: int| 0 <= t1 < t2 < row.len() ==> row[t1] < row[t2]
}

/// The peer table: cell index to its list of peer indices.
pub struct Peers {
    table: Vec<Vec<usize>>,
}

impl Peers {
    /// Each cell's list holds exactly its peers, in ascending order.
    pub closed spec fn wf(self) -> bool {
        &&& self.table@.len() == 81
        &&& forall|i: int|
            0 <= i < 81 ==> row_sound(#[trigger] self.table@[i]@, i) && row_complete(
                self.table@[i]@,
                i,
            ) && row_sorted(self.table@[i]@) && self.table@[i]@.len() == 20
    }

    /// The peer list of cell `i`.
    pub closed spec fn row(self, i: int) -> Seq<usize> {
        self.table@[i]@
    }

    /// What well-formedness of the table says of one cell's list.
    pub proof fn lemma_wf_row(self, i: int)
        requires
            self.wf(),
            0 <= i < 81,
        ensures
            row_sound(self.row(i), i),
            row_complete(self.row(i), i),
            row_sorted(self.row(i)),
            self.row(i).len() == 20,
    {
    }

    /// The peers of cell `ix`, in ascending index order.
    pub fn peers_of(&self, ix: usize) -> (row: &Vec<usize>)
        requires
            self.wf(),
            ix < 81,
        ensures
            row@ == self.row(ix as int),
    {
        &self.table[ix]
    }
}

/// The peers of cell `i`: every other cell in its row, column, or box.
fn peer_row(i: usize) -> (row: Vec<usize>)
    requires
        i < 81,
    ensures
        row_sound(row@, i as int),
        row_complete(row@, i as int),
        row_sorted(row@),
        row@.len() == 20,
{
    let r = row_of(i);
    let c = col_of(i);
    let q = quad_of(i);
    let mut row: Vec<usize> = Vec::new();
    let mut j: usize = 0;
    while j < 81
        invariant
            i < 81,
            j <= 81,
            r == spec_row_of(i as int),
            c == spec_col_of(i as int),
            q == spec_quad_of(i as int),
            row_sound(row@, i as int),
            forall|x: int| is_peer(i as int, x) && x < j ==> row@.contains(x as usize),
            forall|t: int| 0 <= t < row@.len() ==> #[trigger] row@[t] < j,
            row_sorted(row@),
            row@.len() == count_peers_below(i as int, j as int),
        decreases 81 - j,
    {
        if i != j && (row_of(j) == r || col_of(j) == c || quad_of(j) == q) {
            let ghost pre = row@;
            row.push(j);
            proof {
                assert(row@ == pre.push(j));
                assert(row@[pre.len() as int] == j);
                assert(is_peer(i as int, j as int));
                assert forall|x: int| is_peer(i as int, x) && x < j + 1 implies row@.contains(
                    x as usize,
                ) by {
                    if x < j {
                        let t = choose|t: int| 0 <= t < pre.len() && pre[t] == x as usize;
                        assert(row@[t] == x as usize);
                    } else {
                        assert(row@[pre.len() as int] == x as usize);
                    }
                }
            }
        } else {
            proof {
                assert(!is_peer(i as int, j as int));
            }
        }
        j += 1;
    }
    proof {
        assert forall|x: int| #[trigger] is_peer(i as int, x) implies row@.contains(x as usize) by {
            assert(x < 81);
        }
        lemma_twenty_peers(i as int);
    }
    row
}

/// Build the peer table for the whole grid.
pub fn get_peers() -> (r: Peers)
    ensures
        r.wf(),
{
    let mut table: Vec<Vec<usize>> = Vec::new();
    let mut i: usize = 0;
    while i < 81
        invariant
            table@.len() == i,
            i <= 81,
            forall|i2: int|
                0 <= i2 < i ==> row_sound(#[trigger] table@[i2]@, i2) && row_complete(
                    table@[i2]@,
                    i2,
                ) && row_sorted(table@[i2]@) && table@[i2]@.len() == 20,
        decreases 81 - i,
    {
        let row = peer_row(i);
        table.push(row);
        i += 1;
    }
    Peers { table }
}

/// How many peers of cell `i` lie below `n`.
pub open spec fn count_peers_below(i: int, n: int) -> nat
    decreases n,
{
    if n <= 0 {
        0
    } else if is_peer(i, n - 1) {
        count_peers_below(i, n - 1) + 1
    } else {
        count_peers_below(i, n - 1)
    }
}

/// How many peers of cell `i` lie in the index range `lo..hi`, counted by
/// halving the range so that it unfolds shallowly.
pub open spec fn peers_between(i: int, lo: int, hi: int) -> nat
    decreases hi - lo,
{
    if hi <= lo {
        0
    } else if hi == lo + 1 {
        if is_peer(i, lo) {
            1
        } else {
            0
        }
    } else {
        peers_between(i, lo, (lo + hi) / 2) + peers_between(i, (lo + hi) / 2, hi)
    }
}

/// The range count agrees with the prefix count.
proof fn lemma_peers_between_below(i: int, lo: int, hi: int)
    requires
        0 <= lo <= hi,
    ensures
        peers_between(i, lo, hi) + count_peers_below(i, lo) == count_peers_below(i, hi),
    decreases hi - lo,
{
    if hi <= lo {
    } else if hi == lo + 1 {
    } else {
        lemma_peers_between_below(i, lo, (lo + hi) / 2);
        lemma_peers_between_below(i, (lo + hi) / 2, hi);
    }
}

/// The peer count of each cell of row 0.
#[verifier::rlimit(100)]
#[verifier::spinoff_prover]
proof fn lemma_twenty_peers_row_0()
    ensures
        forall|i: int| 9 * 0 <= i < 9 * 0 + 9 ==> peers_between(i, 0, 81) == 20,
{
    reveal_with_fuel(peers_between, 9);
    assert(peers_between(0, 0, 81) == 20);
    assert(peers_between(1, 0, 81) == 20);
    assert(peers_between(2, 0, 81) == 20);
    assert(peers_between(3, 0, 81) == 20);
    assert(peers_between(4, 0, 81) == 20);
    assert(peers_between(5, 0, 81) == 20);
    assert(peers_between(6, 0, 81) == 20);
    assert(peers_between(7, 0, 81) == 20);
    assert(peers_between(8, 0, 81) == 20);
}

/// The peer count of each cell of row 1.
#[verifier::rlimit(100)]
#[verifier::spinoff_prover]
proof fn lemma_twenty_peers_row_1()
    ensures
        forall|i: int| 9 * 1 <= i < 9 * 1 + 9 ==> peers_between(i, 0, 81) == 20,
{
    reveal_with_fuel(peers_between, 9);
    assert(peers_between(9, 0, 81) == 20);
    assert(peers_between(10, 0, 81) == 20);
    assert(peers_between(11, 0, 81) == 20);
    assert(peers_between(12, 0, 81) == 20);
    assert(peers_between(13, 0, 81) == 20);
    assert(peers_between(14, 0, 81) == 20);
    assert(peers_between(15, 0, 81) == 20);
    assert(peers_between(16, 0, 81) == 20);
    assert(peers_between(17, 0, 81) == 20);
}

/// The peer count of each cell of row 2.
#[verifier::rlimit(100)]
#[verifier::spinoff_prover]
proof fn lemma_twenty_peers_row_2()
    ensures
        forall|i: int| 9 * 2 <= i < 9 * 2 + 9 ==> peers_between(i, 0, 81) == 20,
{
    reveal_with_fuel(peers_between, 9);
    assert(peers_between(18, 0, 81) == 20);
    assert(peers_between(19, 0, 81) == 20);
    assert(peers_between(20, 0, 81) == 20);
    assert(peers_between(21, 0, 81) == 20);
    assert(peers_between(22, 0, 81) == 20);
    assert(peers_between(23, 0, 81) == 20);
    assert(peers_between(24, 0, 81) == 20);
    assert(peers_between(25, 0, 81) == 20);
    assert(peers_between(26, 0, 81) == 20);
}

/// The peer count of each cell of row 3.
#[verifier::rlimit(100)]
#[verifier::spinoff_prover]
proof fn lemma_twenty_peers_row_3()
    ensures
        forall|i: int| 9 * 3 <= i < 9 * 3 + 9 ==> peers_between(i, 0, 81) == 20,
{
    reveal_with_fuel(peers_between, 9);
    assert(peers_between(27, 0, 81) == 20);
    assert(peers_between(28, 0, 81) == 20);
    assert(peers_between(29, 0, 81) == 20);
    assert(peers_between(30, 0, 81) == 20);
    assert(peers_between(31, 0, 81) == 20);
    assert(peers_between(32, 0, 81) == 20);
    assert(peers_between(33, 0, 81) == 20);
    assert(peers_between(34, 0, 81) == 20);
    assert(peers_between(35, 0, 81) == 20);
}

/// The peer count of each cell of row 4.
#[verifier::rlimit(100)]
#[verifier::spinoff_prover]
proof fn lemma_twenty_peers_row_4()
    ensures
        forall|i: int| 9 * 4 <= i < 9 * 4 + 9 ==> peers_between(i, 0, 81) == 20,
{
    reveal_with_fuel(peers_between, 9);
    assert(peers_between(36, 0, 81) == 20);
    assert(peers_between(37, 0, 81) == 20);
    assert(peers_between(38, 0, 81) == 20);
    assert(peers_between(39, 0, 81) == 20);
    assert(peers_between(40, 0, 81) == 20);
    assert(peers_between(41, 0, 81) == 20);
    assert(peers_between(42, 0, 81) == 20);
    assert(peers_between(43, 0, 81) == 20);
    assert(peers_between(44, 0, 81) == 20);
}

/// The peer count of each cell of row 5.
#[verifier::rlimit(100)]
#[verifier::spinoff_prover]
proof fn lemma_twenty_peers_row_5()
    ensures
        forall|i: int| 9 * 5 <= i < 9 * 5 + 9 ==> peers_between(i, 0, 81) == 20,
{
    reveal_with_fuel(peers_between, 9);
    assert(peers_between(45, 0, 81) == 20);
    assert(peers_between(46, 0, 81) == 20);
    assert(peers_between(47, 0, 81) == 20);
    assert(peers_between(48, 0, 81) == 20);
    assert(peers_between(49, 0, 81) == 20);
    assert(peers_between(50, 0, 81) == 20);
    assert(peers_between(51, 0, 81) == 20);
    assert(peers_between(52, 0, 81) == 20);
    assert(peers_between(53, 0, 81) == 20);
}

/// The peer count of each cell of row 6.
#[verifier::rlimit(100)]
#[verifier::spinoff_prover]
proof fn lemma_twenty_peers_row_6()
    ensures
        forall|i: int| 9 * 6 <= i < 9 * 6 + 9 ==> peers_between(i, 0, 81) == 20,
{
    reveal_with_fuel(peers_between, 9);
    assert(peers_between(54, 0, 81) == 20);
    assert(peers_between(55, 0, 81) == 20);
    assert(peers_between(56, 0, 81) == 20);
    assert(peers_between(57, 0, 81) == 20);
    assert(peers_between(58, 0, 81) == 20);
    assert(peers_between(59, 0, 81) == 20);
    assert(peers_between(60, 0, 81) == 20);
    assert(peers_between(61, 0, 81) == 20);
    assert(peers_between(62, 0, 81) == 20);
}

/// The peer count of each cell of row 7.
#[verifier::rlimit(100)]
#[verifier::spinoff_prover]
proof fn lemma_twenty_peers_row_7()
    ensures
        forall|i: int| 9 * 7 <= i < 9 * 7 + 9 ==> peers_between(i, 0, 81) == 20,
{
    reveal_with_fuel(peers_between, 9);
    assert(peers_between(63, 0, 81) == 20);
    assert(peers_between(64, 0, 81) == 20);
    assert(peers_between(65, 0, 81) == 20);
    assert(peers_between(66, 0, 81) == 20);
    assert(peers_between(67, 0, 81) == 20);
    assert(peers_between(68, 0, 81) == 20);
    assert(peers_between(69, 0, 81) == 20);
    assert(peers_between(70, 0, 81) == 20);
    assert(peers_between(71, 0, 81) == 20);
}

/// The peer count of each cell of row 8.
#[verifier::rlimit(100)]
#[verifier::spinoff_prover]
proof fn lemma_twenty_peers_row_8()
    ensures
        forall|i: int| 9 * 8 <= i < 9 * 8 + 9 ==> peers_between(i, 0, 81) == 20,
{
    reveal_with_fuel(peers_between, 9);
    assert(peers_between(72, 0, 81) == 20);
    assert(peers_between(73, 0, 81) == 20);
    assert(peers_between(74, 0, 81) == 20);
    assert(peers_between(75, 0, 81) == 20);
    assert(peers_between(76, 0, 81) == 20);
    assert(peers_between(77, 0, 81) == 20);
    assert(peers_between(78, 0, 81) == 20);
    assert(peers_between(79, 0, 81) == 20);
    assert(peers_between(80, 0, 81) == 20);
}

/// Every cell has exactly 20 peers: 8 row-mates, 8 column-mates, and 8
/// box-mates, of which 4 were already row- or column-mates.
pub proof fn lemma_twenty_peers(i: int)
    requires
        0 <= i < 81,
    ensures
        count_peers_below(i, 81) == 20,
{
    lemma_twenty_peers_row_0();
    lemma_twenty_peers_row_1();
    lemma_twenty_peers_row_2();
    lemma_twenty_peers_row_3();
    lemma_twenty_peers_row_4();
    lemma_twenty_peers_row_5();
    lemma_twenty_peers_row_6();
    lemma_twenty_peers_row_7();
    lemma_twenty_peers_row_8();
    lemma_peers_between_below(i, 0, 81);
}

} // verus!
