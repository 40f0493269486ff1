//! The grid and the solver: constraint propagation plus backtracking search.

use vstd::prelude::*;

use crate::cell::{
    has_digit, lemma_count_one_unique, lemma_count_zero, lemma_has_count_pos, lemma_mask_of_digit,
    lemma_sub_digits_count, lemma_sub_digits_trans, lemma_sub_of_singleton, lemma_values_below_props,
    mask_of, sing, sub_digits, values_of, Cell,
};
use crate::peers::{is_peer, row_complete, row_sound, Peers};

verus! {

/// Why a grid could not be built or extended.
#[derive(Debug, Clone, Copy, PartialEq, Eq, Structural)]
pub enum SudokuError {
    /// A cell lost its last candidate: the givens contradict each other.
    Conflict,
    /// A character other than '1'..'9', '.' or '0' at this position.
    InvalidChar { index: usize, found: char },
    /// The input does not hold exactly 81 characters.
    BadLength { len: usize },
}

/// A complete assignment of digits to the 81 cells obeying the Sudoku rule:
/// no two peers hold the same digit.
pub open spec fn valid_assignment(a: Seq<int>) -> bool {
    &&& a.len() == 81
    &&& forall|i: int| 0 <= i < 81 ==> 1 <= #[trigger] a[i] <= 9
    &&& forall|i: int, j: int| #[trigger] is_peer(i, j) ==> a[i] != a[j]
}

/// An 81-cell grid of candidate sets.
#[derive(Debug, Clone, Copy)]
pub struct Puzzle {
    cells: [Cell; 81],
}

/// The total candidate count of the first `n` cells.
pub open spec fn sum_counts(s: Seq<Cell>, n: int) -> nat
    decreases n,
{
    if n <= 0 {
        0
    } else {
        sum_counts(s, n - 1) + s[n - 1].count_spec()
    }
}

/// The total candidate count of the whole grid; propagation and search both
/// strictly shrink it.
pub open spec fn grid_count(p: Puzzle) -> nat {
    sum_counts(p.grid(), 81)
}

/// Every digit that `a` assigns is still a candidate in its cell of `p`.
pub open spec fn compatible(a: Seq<int>, p: Puzzle) -> bool {
    forall|i: int| 0 <= i < 81 ==> (#[trigger] p.cell(i)).has(a[i])
}

impl Puzzle {
    /// The cells as a sequence.
    pub closed spec fn grid(self) -> Seq<Cell> {
        self.cells@
    }

    /// The candidate set of cell `i`.
    pub open spec fn cell(self, i: int) -> Cell {
        self.grid()[i]
    }

    /// Every cell's mask is well-formed.
    pub open spec fn wf(self) -> bool {
        &&& self.grid().len() == 81
        &&& forall|i: int| 0 <= i < 81 ==> (#[trigger] self.cell(i)).wf()
    }

    /// No cell has lost all candidates.
    pub open spec fn all_nonempty(self) -> bool {
        forall|i: int| 0 <= i < 81 ==> (#[trigger] self.cell(i)).mask() != 0
    }

    /// Every cell has exactly one candidate left.
    pub open spec fn solved(self) -> bool {
        forall|i: int| 0 <= i < 81 ==> (#[trigger] self.cell(i)).count_spec() == 1
    }

    /// Constraint consistency up to a pending set of (cell, digit)
    /// obligations: a solved cell's digit is absent from each of its peers,
    /// unless either end of the pair still has that digit's propagation
    /// pending.
    pub open spec fn consistent_except(self, pend: Set<(int, int)>) -> bool {
        forall|i: int, j: int, d: int|
            #![trigger is_peer(i, j), sing(self.cell(i).mask(), d)]
            is_peer(i, j) && sing(self.cell(i).mask(), d) && !pend.contains((i, d))
                && !pend.contains((j, d)) ==> !self.cell(j).has(d)
    }

    /// Constraint consistency: no solved cell's digit remains a candidate in
    /// any of its peers.
    pub open spec fn consistent(self) -> bool {
        self.consistent_except(Set::empty())
    }
}

impl Puzzle {
    /// Assign digit `v` to cell `ix` and propagate: remove `v` from every
    /// peer, cascading recursively whenever a peer collapses to a single
    /// candidate, and failing as soon as a peer loses its last one.
    ///
    /// `pending` carries the (cell, digit) propagations still owed by the
    /// callers up the cascade; consistency holds except for those.
    fn assign_rec(
        &mut self,
        peers: &Peers,
        ix: usize,
        v: i32,
        Ghost(pending): Ghost<Set<(int, int)>>,
    ) -> (r: Result<(), SudokuError>)
        requires
            peers.wf(),
            old(self).wf(),
            old(self).all_nonempty(),
            ix < 81,
            1 <= v <= 9,
            old(self).consistent_except(pending.insert((ix as int, v as int))),
        ensures
            final(self).wf(),
            r is Ok ==> final(self).all_nonempty(),
            r is Ok ==> final(self).cell(ix as int).mask() == mask_of(v as int),
            r is Ok ==> forall|k: int|
                0 <= k < 81 && k != ix ==> sub_digits(
                    (#[trigger] final(self).cell(k)).mask(),
                    old(self).cell(k).mask(),
                ),
            r is Ok ==> final(self).consistent_except(pending),
            forall|a: Seq<int>|
                valid_assignment(a) && compatible(a, *old(self)) && a[ix as int] == v ==> r is Ok
                    && compatible(a, *final(self)),
        decreases grid_count(*old(self)),
    {
        let ghost entry = *old(self);
        let ghost pend1 = pending.insert((ix as int, v as int));
        self.cells[ix] = self.cells[ix].assign(v);
        let ghost g0 = *self;
        proof {
            lemma_mask_of_digit(v as int);
            lemma_count_zero(mask_of(v as int));
            assert forall|i: int| 0 <= i < 81 && i != ix implies g0.cell(i) == entry.cell(i) by {}
            assert forall|i: int| 0 <= i < 81 implies (#[trigger] g0.cell(i)).wf() && g0.cell(
                i,
            ).mask() != 0 by {
                if i != ix {
                    assert(g0.cell(i) == entry.cell(i));
                    assert(entry.cell(i).wf());
                    assert(entry.cell(i).mask() != 0);
                }
            }
            assert(g0.wf());
            assert(g0.all_nonempty());
            assert(entry.cell(ix as int).mask() != 0);
            lemma_count_zero(entry.cell(ix as int).mask());
            assert forall|k: int|
                0 <= k < 81 implies (#[trigger] g0.cell(k)).count_spec()
                <= entry.cell(k).count_spec() by {
                if k != ix {
                    assert(g0.cell(k) == entry.cell(k));
                }
            }
            lemma_grid_le(g0, entry);
            assert(g0.consistent_except(pend1)) by {
                assert forall|i: int, j: int, d: int|
                    is_peer(i, j) && sing(g0.cell(i).mask(), d) && !pend1.contains((i, d))
                        && !pend1.contains((j, d)) implies !g0.cell(j).has(d) by {
                    if i == ix {
                        lemma_count_one_unique(g0.cell(i).mask(), v as int, d);
                        assert(false);
                    } else if j == ix {
                        assert(!g0.cell(j).has(d));
                    } else {
                        assert(sing(entry.cell(i).mask(), d));
                        assert(!entry.cell(j).has(d));
                    }
                }
            }
        }
        let row = peers.peers_of(ix);
        proof {
            peers.lemma_wf_row(ix as int);
        }
        let n = row.len();
        let mut t: usize = 0;
        while t < n
            invariant
                entry == *old(self),
                peers.wf(),
                ix < 81,
                1 <= v <= 9,
                t <= n,
                n == row@.len(),
                row@ == peers.row(ix as int),
                row_sound(row@, ix as int),
                row_complete(row@, ix as int),
                crate::peers::row_sorted(row@),
                self.wf(),
                self.all_nonempty(),
                self.cell(ix as int).mask() == mask_of(v as int),
                g0.cell(ix as int).mask() == mask_of(v as int),
                g0.grid().len() == 81,
                forall|k: int|
                    0 <= k < 81 && k != ix ==> sub_digits(
                        (#[trigger] self.cell(k)).mask(),
                        g0.cell(k).mask(),
                    ),
                forall|k: int| 0 <= k < 81 && k != ix ==> g0.cell(k) == entry.cell(k),
                grid_count(g0) <= grid_count(entry),
                self.consistent_except(pend1),
                pend1 == pending.insert((ix as int, v as int)),
                forall|tt: int|
                    0 <= tt < t ==> !(#[trigger] self.cell(row@[tt] as int)).has(v as int),
                forall|a: Seq<int>|
                    valid_assignment(a) && compatible(a, entry) && a[ix as int] == v
                        ==> compatible(a, *self),
            decreases n - t,
        {
            let p_ix = row[t];
            proof {
                assert(is_peer(ix as int, row@[t as int] as int));
            }
            let old_cell = self.cells[p_ix];
            let new_cell = old_cell.remove(v);
            if !(old_cell == new_cell) {
                let ghost cur = *self;
                self.cells[p_ix] = new_cell;
                let ghost cur2 = *self;
                proof {
                    assert(old_cell.has(v as int));
                    assert(old_cell == cur.cell(p_ix as int));
                    assert(sub_digits(new_cell.mask(), old_cell.mask())) by {
                        assert forall|d: int|
                            has_digit(new_cell.mask(), d) implies has_digit(
                            old_cell.mask(),
                            d,
                        ) by {
                            assert(new_cell.has(d) ==> old_cell.has(d));
                        }
                    }
                    assert forall|i: int| 0 <= i < 81 implies (#[trigger] cur2.cell(i)).wf() by {
                        if i != p_ix {
                            assert(cur2.cell(i) == cur.cell(i));
                            assert(cur.cell(i).wf());
                        }
                    }
                    assert(cur2.wf());
                    assert forall|k: int|
                        0 <= k < 81 && k != ix implies sub_digits(
                            (#[trigger] cur2.cell(k)).mask(),
                            g0.cell(k).mask(),
                        ) by {
                        if k == p_ix {
                            lemma_sub_digits_trans(
                                new_cell.mask(),
                                old_cell.mask(),
                                g0.cell(k).mask(),
                            );
                        } else {
                            assert(sub_digits(cur.cell(k).mask(), g0.cell(k).mask()));
                            assert(cur2.cell(k) == cur.cell(k));
                        }
                    }
                    // any assignment compatible with the entry state stays
                    // compatible: a peer of `ix` never carries `v` itself
                    assert forall|a: Seq<int>|
                        valid_assignment(a) && compatible(a, entry) && a[ix as int]
                            == v implies compatible(a, cur2) by {
                        assert(compatible(a, cur));
                        assert(a[p_ix as int] != a[ix as int]);
                        assert(cur.cell(p_ix as int).has(a[p_ix as int]));
                        assert forall|i: int| 0 <= i < 81 implies (#[trigger] cur2.cell(i)).has(
                            a[i],
                        ) by {
                            if i != p_ix {
                                assert(cur2.cell(i) == cur.cell(i));
                            }
                        }
                    }
                }
                if new_cell.is_empty() {
                    proof {
                        // a valid completion would still sit in the emptied
                        // cell: there is none
                        lemma_count_zero(0u16);
                        assert forall|a: Seq<int>|
                            valid_assignment(a) && compatible(a, *old(self)) && a[ix as int]
                                == v implies false by {
                            assert(entry == *old(self));
                            assert(compatible(a, entry));
                            assert(compatible(a, cur2));
                            assert(cur2.cell(p_ix as int).has(a[p_ix as int]));
                            lemma_has_count_pos(cur2.cell(p_ix as int).mask(), a[p_ix as int]);
                        }
                    }
                    return Err(SudokuError::Conflict);
                }
                proof {
                    assert forall|i: int| 0 <= i < 81 implies (#[trigger] cur2.cell(i)).mask()
                        != 0 by {
                        if i != p_ix {
                            assert(cur2.cell(i) == cur.cell(i));
                            assert(cur.cell(i).mask() != 0);
                        }
                    }
                    assert(cur2.all_nonempty());
                }
                match new_cell.solution() {
                    Some(v2) => {
                        proof {
                            // consistency survives the removal, once the
                            // collapsed peer's own new obligation is excused
                            let pend2 = pend1.insert((p_ix as int, v2 as int));
                            assert forall|i: int, j: int, d: int|
                                is_peer(i, j) && sing(cur2.cell(i).mask(), d) && !pend2.contains(
                                    (i, d),
                                ) && !pend2.contains((j, d)) && cur2.cell(j).has(d) implies false by {
                                if i == p_ix {
                                    lemma_count_one_unique(cur2.cell(i).mask(), v2 as int, d);
                                    assert(false);
                                } else {
                                    assert(cur2.cell(i) == cur.cell(i));
                                    assert(sing(cur.cell(i).mask(), d));
                                    if j == p_ix {
                                        assert(cur.cell(j).has(d));
                                    } else {
                                        assert(cur.cell(j).has(d));
                                    }
                                    assert(!cur.cell(j).has(d));
                                }
                            }
                            assert(cur2.consistent_except(pend2));
                            // the total candidate count strictly shrank, so
                            // the cascade terminates
                            assert forall|k: int|
                                0 <= k < 81 implies (#[trigger] cur2.cell(k)).count_spec()
                                <= g0.cell(k).count_spec() by {
                                if k != ix {
                                    lemma_sub_digits_count(
                                        cur2.cell(k).mask(),
                                        g0.cell(k).mask(),
                                        9,
                                    );
                                }
                            }
                            assert(cur.cell(p_ix as int).count_spec()
                                <= g0.cell(p_ix as int).count_spec()) by {
                                lemma_sub_digits_count(
                                    cur.cell(p_ix as int).mask(),
                                    g0.cell(p_ix as int).mask(),
                                    9,
                                );
                            }
                            assert(cur2.cell(p_ix as int).count_spec() < g0.cell(
                                p_ix as int,
                            ).count_spec());
                            lemma_grid_lt(cur2, g0, p_ix as int);
                            assert(grid_count(cur2) < grid_count(entry));
                        }
                        let res = self.assign_rec(peers, p_ix, v2, Ghost(pend1));
                        match res {
                            Err(e) => {
                                proof {
                                    assert forall|a: Seq<int>|
                                        valid_assignment(a) && compatible(a, entry) && a[ix as int]
                                            == v implies false by {
                                        assert(compatible(a, cur2));
                                        assert(cur2.cell(p_ix as int).has(a[p_ix as int]));
                                        lemma_count_one_unique(
                                            cur2.cell(p_ix as int).mask(),
                                            v2 as int,
                                            a[p_ix as int],
                                        );
                                    }
                                }
                                return Err(e);
                            },
                            Ok(()) => {
                                proof {
                                    let after = *self;
                                    assert forall|k: int|
                                        0 <= k < 81 && k != ix implies sub_digits(
                                            (#[trigger] after.cell(k)).mask(),
                                            g0.cell(k).mask(),
                                        ) by {
                                        if k == p_ix {
                                            assert(after.cell(k).mask() == mask_of(v2 as int));
                                            assert(sub_digits(
                                                cur2.cell(k).mask(),
                                                g0.cell(k).mask(),
                                            ));
                                            lemma_mask_of_digit(v2 as int);
                                            assert(cur2.cell(k).mask() == mask_of(v2 as int)) by {
                                                assert forall|d: int|
                                                    has_digit(cur2.cell(k).mask(), d) implies d
                                                    == v2 by {
                                                    lemma_count_one_unique(
                                                        cur2.cell(k).mask(),
                                                        v2 as int,
                                                        d,
                                                    );
                                                }
                                                lemma_sub_of_singleton(
                                                    cur2.cell(k).mask(),
                                                    v2 as int,
                                                );
                                            }
                                        } else {
                                            assert(sub_digits(
                                                after.cell(k).mask(),
                                                cur2.cell(k).mask(),
                                            ));
                                            assert(sub_digits(
                                                cur2.cell(k).mask(),
                                                g0.cell(k).mask(),
                                            ));
                                        }
                                    }
                                    // cell `ix` kept its singleton: it only
                                    // ever shrank and stayed nonempty
                                    assert(after.cell(ix as int).mask() == mask_of(v as int)) by {
                                        assert(sub_digits(
                                            after.cell(ix as int).mask(),
                                            cur2.cell(ix as int).mask(),
                                        ));
                                        lemma_mask_of_digit(v as int);
                                        assert forall|d: int|
                                            has_digit(after.cell(ix as int).mask(), d) implies d
                                            == v by {
                                            assert(has_digit(cur2.cell(ix as int).mask(), d));
                                        }
                                        assert(after.cell(ix as int).mask() != 0);
                                        lemma_sub_of_singleton(after.cell(ix as int).mask(), v as int);
                                    }
                                    // processed peers still lack `v`
                                    assert forall|tt: int| 0 <= tt < t + 1 implies !(
                                    #[trigger] after.cell(row@[tt] as int)).has(v as int) by {
                                        let y = row@[tt] as int;
                                        assert(is_peer(ix as int, y));
                                        if tt < t {
                                            assert(row@[tt] < row@[t as int]);
                                            assert(y != p_ix);
                                            assert(cur2.cell(y) == cur.cell(y));
                                            assert(!cur.cell(y).has(v as int));
                                            assert(sub_digits(
                                                after.cell(y).mask(),
                                                cur2.cell(y).mask(),
                                            ));
                                        } else {
                                            assert(y == p_ix as int);
                                            assert(after.cell(y).mask() == mask_of(v2 as int));
                                            lemma_mask_of_digit(v2 as int);
                                            assert(!new_cell.has(v as int));
                                            assert(new_cell.has(v2 as int));
                                            assert(v2 != v);
                                        }
                                    }
                                    // a compatible valid assignment survives the
                                    // recursive propagation
                                    assert forall|a: Seq<int>|
                                        valid_assignment(a) && compatible(a, entry) && a[ix as int]
                                            == v implies compatible(a, *self) by {
                                        assert(compatible(a, cur2));
                                        assert(cur2.cell(p_ix as int).has(a[p_ix as int]));
                                        lemma_count_one_unique(
                                            cur2.cell(p_ix as int).mask(),
                                            v2 as int,
                                            a[p_ix as int],
                                        );
                                    }
                                }
                            },
                        }
                    },
                    None => {
                        proof {
                            // the peer kept several candidates: no new solved
                            // cell, so consistency-up-to is untouched
                            assert(cur2.cell(p_ix as int).count_spec() != 1);
                            assert forall|i: int, j: int, d: int|
                                is_peer(i, j) && sing(cur2.cell(i).mask(), d) && !pend1.contains(
                                    (i, d),
                                ) && !pend1.contains((j, d)) && cur2.cell(j).has(d) implies false by {
                                assert(i != p_ix);
                                assert(cur2.cell(i) == cur.cell(i));
                                assert(sing(cur.cell(i).mask(), d));
                                assert(cur.cell(j).has(d));
                                assert(!cur.cell(j).has(d));
                            }
                            assert(cur2.consistent_except(pend1));
                            assert forall|tt: int| 0 <= tt < t + 1 implies !(
                            #[trigger] cur2.cell(row@[tt] as int)).has(v as int) by {
                                let y = row@[tt] as int;
                                if tt < t && y != p_ix {
                                    assert(!cur.cell(y).has(v as int));
                                    assert(cur2.cell(y) == cur.cell(y));
                                }
                            }
                        }
                    },
                }
            } else {
                proof {
                    assert(!self.cell(row@[t as int] as int).has(v as int));
                }
            }
            t += 1;
        }
        proof {
            // every peer of `ix` has been processed: the obligation (ix, v)
            // is discharged
            assert forall|i: int, j: int, d: int|
                is_peer(i, j) && sing(self.cell(i).mask(), d) && !pending.contains((i, d))
                    && !pending.contains((j, d)) implies !self.cell(j).has(d) by {
                if i == ix as int && d == v as int {
                    assert(row@.contains(j as usize));
                    let tt = choose|tt: int| 0 <= tt < row@.len() && row@[tt] == j as usize;
                    assert(!self.cell(j).has(v as int));
                } else if j == ix as int && d == v as int {
                    assert(is_peer(j, i));
                    assert(row@.contains(i as usize));
                    let tt = choose|tt: int| 0 <= tt < row@.len() && row@[tt] == i as usize;
                    assert(!self.cell(i).has(v as int));
                    lemma_has_count_pos(self.cell(i).mask(), d);
                    assert(false);
                } else {
                    assert(!pend1.contains((i, d)));
                    assert(!pend1.contains((j, d)));
                }
            }
        }
        Ok(())
    }

    /// Assign digit `v` to cell `ix`, propagating the consequences to its
    /// peers. On success the grid is consistent again and every cell other
    /// than `ix` has only lost candidates; an `Err` means the assignment
    /// contradicts the grid, and then no valid completion of the old grid
    /// assigns `v` to `ix`.
    pub fn assign(&mut self, peers: &Peers, ix: usize, v: i32) -> (r: Result<(), SudokuError>)
        requires
            peers.wf(),
            old(self).wf(),
            old(self).all_nonempty(),
            old(self).consistent(),
            ix < 81,
            1 <= v <= 9,
        ensures
            final(self).wf(),
            r is Ok ==> final(self).all_nonempty(),
            r is Ok ==> final(self).consistent(),
            r is Ok ==> final(self).cell(ix as int).mask() == mask_of(v as int),
            r is Ok ==> forall|k: int|
                0 <= k < 81 && k != ix ==> sub_digits(
                    (#[trigger] final(self).cell(k)).mask(),
                    old(self).cell(k).mask(),
                ),
            r is Err ==> r == Err::<(), SudokuError>(SudokuError::Conflict),
            forall|a: Seq<int>|
                valid_assignment(a) && compatible(a, *old(self)) && a[ix as int] == v ==> r is Ok
                    && compatible(a, *final(self)),
    {
        proof {
            lemma_except_mono(
                *old(self),
                Set::empty(),
                Set::empty().insert((ix as int, v as int)),
            );
        }
        let r = self.assign_rec(peers, ix, v, Ghost(Set::empty()));
        match r {
            Ok(()) => Ok(()),
            Err(_) => Err(SudokuError::Conflict),
        }
    }
}

/// Every cell before `n` is already solved.
pub open spec fn all_solved_below(p: Puzzle, n: int) -> bool {
    forall|k: int| 0 <= k < n ==> (#[trigger] p.cell(k)).count_spec() == 1
}

/// No unsolved cell before `n` has fewer than `bc` candidates.
pub open spec fn min_below(p: Puzzle, n: int, bc: int) -> bool {
    forall|k: int|
        0 <= k < n && (#[trigger] p.cell(k)).count_spec() >= 2 ==> bc <= p.cell(k).count_spec()
}

/// Every cell before `b` is solved or has strictly more than `bc` candidates.
pub open spec fn no_better_before(p: Puzzle, b: int, bc: int) -> bool {
    forall|k: int|
        0 <= k < b ==> (#[trigger] p.cell(k)).count_spec() == 1 || p.cell(k).count_spec() > bc
}

impl Puzzle {
    /// The unconstrained grid: every digit possible in every cell.
    pub fn new() -> (r: Puzzle)
        ensures
            r.wf(),
            r.all_nonempty(),
            r.consistent(),
            forall|i: int| 0 <= i < 81 ==> (#[trigger] r.cell(i)).mask() == 0x1ffu16,
            forall|a: Seq<int>| valid_assignment(a) ==> compatible(a, r),
    {
        let full = Cell::with_all();
        let p = Puzzle { cells: [full; 81] };
        proof {
            crate::cell::lemma_full_mask();
            assert forall|i: int| 0 <= i < 81 implies (#[trigger] p.cell(i)).mask()
                == 0x1ffu16 by {}
            assert(p.consistent()) by {
                assert forall|i: int, j: int, d: int|
                    is_peer(i, j) && sing(p.cell(i).mask(), d) implies false by {
                    assert(p.cell(i).mask() == 0x1ffu16);
                }
            }
            assert forall|a: Seq<int>| valid_assignment(a) implies compatible(a, p) by {
                assert forall|i: int| 0 <= i < 81 implies (#[trigger] p.cell(i)).has(a[i]) by {
                    assert(1 <= a[i] <= 9);
                }
            }
        }
        p
    }

    /// The candidate set at cell `ix`.
    pub fn get(&self, ix: usize) -> (c: Cell)
        requires
            ix < 81,
        ensures
            c == self.cell(ix as int),
    {
        self.cells[ix]
    }

    /// Every cell already has exactly one candidate.
    pub fn is_solved(&self) -> (r: bool)
        ensures
            r == self.solved(),
    {
        let mut i: usize = 0;
        while i < 81
            invariant
                i <= 81,
                forall|k: int| 0 <= k < i ==> (#[trigger] self.cell(k)).count_spec() == 1,
            decreases 81 - i,
        {
            if self.cells[i].count() != 1 {
                proof {
                    assert(self.cell(i as int).count_spec() != 1);
                }
                return false;
            }
            i += 1;
        }
        true
    }

    /// The most constrained unsolved cell: among the cells with at least two
    /// candidates, one with the fewest; ties go to the lowest index.
    pub fn pick_cell(&self) -> (r: usize)
        requires
            self.wf(),
            self.all_nonempty(),
            !self.solved(),
        ensures
            r < 81,
            self.cell(r as int).count_spec() >= 2,
            forall|k: int|
                0 <= k < 81 && (#[trigger] self.cell(k)).count_spec() >= 2 ==> self.cell(
                    r as int,
                ).count_spec() <= self.cell(k).count_spec(),
            forall|k: int|
                0 <= k < r ==> (#[trigger] self.cell(k)).count_spec() == 1 || self.cell(
                    k,
                ).count_spec() > self.cell(r as int).count_spec(),
    {
        proof {
            assert forall|k: int|
                0 <= k < 81 implies 1 <= (#[trigger] self.cell(k)).count_spec() <= 9 by {
                lemma_count_zero(self.cell(k).mask());
                lemma_values_below_props(self.cell(k).mask(), 9);
            }
        }
        let mut best: usize = 81;
        let mut best_count: usize = 10;
        let mut i: usize = 0;
        while i < 81
            invariant
                i <= 81,
                best <= 81,
                self.wf(),
                forall|k: int| 0 <= k < 81 ==> 1 <= (#[trigger] self.cell(k)).count_spec() <= 9,
                best == 81 ==> best_count == 10 && all_solved_below(*self, i as int),
                best < 81 ==> best < i && best_count == self.cell(best as int).count_spec()
                    && best_count >= 2,
                min_below(*self, i as int, best_count as int),
                best < 81 ==> no_better_before(*self, best as int, best_count as int),
            decreases 81 - i,
        {
            let c = self.cells[i].count();
            let ghost ob: usize = best;
            let ghost obc: usize = best_count;
            if c >= 2 && c < best_count {
                best = i;
                best_count = c;
            }
            proof {
                assert(min_below(*self, i as int, obc as int));
                assert forall|k: int|
                    0 <= k < i + 1 && (#[trigger] self.cell(k)).count_spec()
                        >= 2 implies best_count <= self.cell(k).count_spec() by {
                    if k < i as int {
                        if ob == 81 {
                            assert(all_solved_below(*self, i as int));
                            assert(self.cell(k).count_spec() == 1);
                        } else {
                            assert(obc <= self.cell(k).count_spec());
                        }
                    }
                }
                assert(min_below(*self, i as int + 1, best_count as int));
                if best == 81 {
                    assert(self.cell(i as int).count_spec() == 1);
                    assert(all_solved_below(*self, i as int + 1));
                }
                if best < 81 {
                    assert forall|k: int|
                        0 <= k < best implies (#[trigger] self.cell(k)).count_spec() == 1
                        || self.cell(k).count_spec() > best_count by {
                        if best == i && k < i as int {
                            if self.cell(k).count_spec() >= 2 {
                                if ob == 81 {
                                    assert(all_solved_below(*self, i as int));
                                } else {
                                    assert(obc <= self.cell(k).count_spec());
                                }
                            }
                        } else if best != i && ob < 81 {
                            assert(no_better_before(*self, ob as int, obc as int));
                        }
                    }
                    assert(no_better_before(*self, best as int, best_count as int));
                }
            }
            i += 1;
        }
        proof {
            if best == 81 {
                assert(all_solved_below(*self, 81));
                assert forall|k: int| 0 <= k < 81 implies (#[trigger] self.cell(
                    k,
                )).count_spec() == 1 by {
                    assert(self.cell(k).count_spec() == 1);
                }
                assert(self.solved());
                assert(false);
            }
            assert(min_below(*self, 81, best_count as int));
            assert(no_better_before(*self, best as int, best_count as int));
            assert(best_count == self.cell(best as int).count_spec());
        }
        best
    }

    /// Depth-first search with forward checking. `Some` is a solved,
    /// consistent refinement of this grid; `None` means no valid complete
    /// assignment is compatible with it.
    pub fn solve(&self, peers: &Peers) -> (r: Option<Puzzle>)
        requires
            peers.wf(),
            self.wf(),
            self.all_nonempty(),
            self.consistent(),
        ensures
            match r {
                Some(p) => p.wf() && p.solved() && p.consistent() && forall|k: int|
                    0 <= k < 81 ==> sub_digits(
                        (#[trigger] p.cell(k)).mask(),
                        self.cell(k).mask(),
                    ),
                None => forall|a: Seq<int>| !(valid_assignment(a) && compatible(a, *self)),
            },
        decreases grid_count(*self),
    {
        if self.is_solved() {
            return Some(self.clone());
        }
        let ix = self.pick_cell();
        let vs = self.cells[ix].values();
        proof {
            lemma_values_below_props(self.cell(ix as int).mask(), 9);
        }
        let mut t: usize = 0;
        while t < vs.len()
            invariant
                peers.wf(),
                self.wf(),
                self.all_nonempty(),
                self.consistent(),
                ix < 81,
                self.cell(ix as int).count_spec() >= 2,
                vs@ == values_of(self.cell(ix as int).mask()),
                t <= vs@.len(),
                forall|a: Seq<int>, tt: int|
                    valid_assignment(a) && compatible(a, *self) && 0 <= tt < t ==> a[ix as int]
                        != vs@[tt] as int,
            decreases vs@.len() - t,
        {
            let v = vs[t];
            proof {
                lemma_values_below_props(self.cell(ix as int).mask(), 9);
                assert(1 <= v <= 9);
                assert(self.cell(ix as int).has(v as int));
            }
            let mut p = self.clone();
            let res = p.assign(peers, ix, v);
            match res {
                Ok(()) => {
                    proof {
                        lemma_mask_of_digit(v as int);
                        assert forall|k: int|
                            0 <= k < 81 implies (#[trigger] p.cell(k)).count_spec() <= self.cell(
                            k,
                        ).count_spec() by {
                            if k != ix {
                                lemma_sub_digits_count(p.cell(k).mask(), self.cell(k).mask(), 9);
                            }
                        }
                        lemma_grid_lt(p, *self, ix as int);
                    }
                    let sub = p.solve(peers);
                    match sub {
                        Some(sol) => {
                            proof {
                                assert forall|k: int|
                                    0 <= k < 81 implies sub_digits(
                                        (#[trigger] sol.cell(k)).mask(),
                                        self.cell(k).mask(),
                                    ) by {
                                    assert(sub_digits(sol.cell(k).mask(), p.cell(k).mask()));
                                    if k == ix {
                                        assert(p.cell(k).mask() == mask_of(v as int));
                                        assert forall|d: int|
                                            has_digit(sol.cell(k).mask(), d) implies has_digit(
                                            self.cell(k).mask(),
                                            d,
                                        ) by {
                                            assert(has_digit(p.cell(k).mask(), d));
                                            assert(d == v as int);
                                        }
                                    } else {
                                        lemma_sub_digits_trans(
                                            sol.cell(k).mask(),
                                            p.cell(k).mask(),
                                            self.cell(k).mask(),
                                        );
                                    }
                                }
                            }
                            return Some(sol);
                        },
                        None => {
                            proof {
                                assert forall|a: Seq<int>, tt: int|
                                    valid_assignment(a) && compatible(a, *self) && 0 <= tt < t
                                        + 1 implies a[ix as int] != vs@[tt] as int by {
                                    if tt == t && a[ix as int] == vs@[tt] as int {
                                        assert(compatible(a, p));
                                        assert(false);
                                    }
                                }
                            }
                        },
                    }
                },
                Err(_) => {
                    proof {
                        assert forall|a: Seq<int>, tt: int|
                            valid_assignment(a) && compatible(a, *self) && 0 <= tt < t
                                + 1 implies a[ix as int] != vs@[tt] as int by {
                            if tt == t && a[ix as int] == vs@[tt] as int {
                                assert(false);
                            }
                        }
                    }
                },
            }
            t += 1;
        }
        proof {
            assert forall|a: Seq<int>| !(valid_assignment(a) && compatible(a, *self)) by {
                if valid_assignment(a) && compatible(a, *self) {
                    assert(self.cell(ix as int).has(a[ix as int]));
                    assert(vs@.contains(a[ix as int] as i32));
                    let tt = choose|tt: int|
                        0 <= tt < vs@.len() && vs@[tt] == a[ix as int] as i32;
                    assert(a[ix as int] != vs@[tt] as int);
                    assert(false);
                }
            }
        }
        None
    }
}

/// The digit in each cell of a solved grid.
pub open spec fn digits_of(p: Puzzle) -> Seq<int> {
    Seq::new(81, |i: int| values_of(p.cell(i).mask())[0] as int)
}

/// Uniqueness invariant: the digits of a solved, consistent grid form a
/// valid assignment — no cell shares its digit with any peer — and each
/// digit is the one candidate its cell kept.
pub proof fn lemma_solved_digits_valid(p: Puzzle)
    requires
        p.wf(),
        p.solved(),
        p.consistent(),
    ensures
        valid_assignment(digits_of(p)),
        compatible(digits_of(p), p),
{
    let a = digits_of(p);
    assert forall|i: int| 0 <= i < 81 implies (#[trigger] p.cell(i)).has(a[i]) && 1 <= a[i]
        <= 9 by {
        lemma_values_below_props(p.cell(i).mask(), 9);
        assert(values_of(p.cell(i).mask()).len() == 1);
    }
    assert forall|i: int, j: int| #[trigger] is_peer(i, j) implies a[i] != a[j] by {
        assert(p.cell(i).has(a[i]));
        assert(p.cell(j).has(a[j]));
        assert(sing(p.cell(i).mask(), a[i]));
        assert(!p.cell(j).has(a[i]));
    }
}

/// Pointwise no-larger cell counts give a no-larger grid total.
proof fn lemma_grid_le(p1: Puzzle, p2: Puzzle)
    requires
        p1.grid().len() == 81,
        p2.grid().len() == 81,
        forall|k: int|
            0 <= k < 81 ==> (#[trigger] p1.cell(k)).count_spec() <= p2.cell(k).count_spec(),
    ensures
        grid_count(p1) <= grid_count(p2),
{
    assert forall|k: int|
        0 <= k < 81 implies (#[trigger] p1.grid()[k]).count_spec()
        <= p2.grid()[k].count_spec() by {
        assert(p1.cell(k).count_spec() <= p2.cell(k).count_spec());
    }
    lemma_sum_le(p1.grid(), p2.grid(), 81);
}

/// ... and one strictly smaller count gives a strictly smaller total.
proof fn lemma_grid_lt(p1: Puzzle, p2: Puzzle, k0: int)
    requires
        p1.grid().len() == 81,
        p2.grid().len() == 81,
        forall|k: int|
            0 <= k < 81 ==> (#[trigger] p1.cell(k)).count_spec() <= p2.cell(k).count_spec(),
        0 <= k0 < 81,
        p1.cell(k0).count_spec() < p2.cell(k0).count_spec(),
    ensures
        grid_count(p1) < grid_count(p2),
{
    assert forall|k: int|
        0 <= k < 81 implies (#[trigger] p1.grid()[k]).count_spec()
        <= p2.grid()[k].count_spec() by {
        assert(p1.cell(k).count_spec() <= p2.cell(k).count_spec());
    }
    lemma_sum_lt(p1.grid(), p2.grid(), 81, k0);
}

/// Consistency-up-to is monotone in the pending set.
proof fn lemma_except_mono(p: Puzzle, s1: Set<(int, int)>, s2: Set<(int, int)>)
    requires
        p.consistent_except(s1),
        s1.subset_of(s2),
    ensures
        p.consistent_except(s2),
{
}

/// Pointwise no-larger counts give a no-larger total.
proof fn lemma_sum_le(s1: Seq<Cell>, s2: Seq<Cell>, n: int)
    requires
        n <= s1.len(),
        n <= s2.len(),
        forall|k: int| 0 <= k < n ==> (#[trigger] s1[k]).count_spec() <= s2[k].count_spec(),
    ensures
        sum_counts(s1, n) <= sum_counts(s2, n),
    decreases n,
{
    if n > 0 {
        lemma_sum_le(s1, s2, n - 1);
    }
}

/// Pointwise no-larger counts with one strictly smaller give a strictly
/// smaller total.
proof fn lemma_sum_lt(s1: Seq<Cell>, s2: Seq<Cell>, n: int, k0: int)
    requires
        n <= s1.len(),
        n <= s2.len(),
        forall|k: int| 0 <= k < n ==> (#[trigger] s1[k]).count_spec() <= s2[k].count_spec(),
        0 <= k0 < n,
        s1[k0].count_spec() < s2[k0].count_spec(),
    ensures
        sum_counts(s1, n) < sum_counts(s2, n),
    decreases n,
{
    if k0 == n - 1 {
        lemma_sum_le(s1, s2, n - 1);
    } else {
        lemma_sum_lt(s1, s2, n - 1, k0);
    }
}

} // verus!
