//! A candidate set for one cell: a 9-bit mask, bit `k` meaning digit `k + 1`
//! is still possible.

use vstd::prelude::*;

verus! {

/// Bit `k` of mask `m` is set.
pub open spec fn bit_set(m: u16, k: u16) -> bool {
    (m >> k) & 1u16 == 1u16
}

/// The mask holding exactly the digit `d`.
pub open spec fn mask_of(d: int) -> u16
    recommends
        1 <= d <= 9,
{
    1u16 << ((d - 1) as u16)
}

/// Digit `d` is a candidate in mask `m`.
pub open spec fn has_digit(m: u16, d: int) -> bool {
    1 <= d <= 9 && bit_set(m, (d - 1) as u16)
}

/// Only the nine digit bits may be set.
pub open spec fn mask_wf(m: u16) -> bool {
    m < 512
}

/// The candidates of `m` that are at most `d`, as an ascending sequence.
pub open spec fn values_below(m: u16, d: int) -> Seq<i32>
    decreases d,
{
    if d <= 0 {
        Seq::empty()
    } else if has_digit(m, d) {
        values_below(m, d - 1).push(d as i32)
    } else {
        values_below(m, d - 1)
    }
}

/// All candidates of `m`, ascending.
pub open spec fn values_of(m: u16) -> Seq<i32> {
    values_below(m, 9)
}

/// How many candidates `m` holds.
pub open spec fn count_of(m: u16) -> nat {
    values_of(m).len()
}

/// `m` holds exactly the one digit `d`.
pub open spec fn sing(m: u16, d: int) -> bool {
    count_of(m) == 1 && has_digit(m, d)
}

/// Every candidate of `m1` is a candidate of `m2`.
pub open spec fn sub_digits(m1: u16, m2: u16) -> bool {
    forall|d: int| has_digit(m1, d) ==> has_digit(m2, d)
}

/// The elements of `values_below(m, d)` are exactly the candidates of `m`
/// up to `d`, in strictly ascending order.
pub proof fn lemma_values_below_props(m: u16, d: int)
    requires
        0 <= d <= 9,
    ensures
        values_below(m, d).len() <= d,
        forall|t: int|
            0 <= t < values_below(m, d).len() ==> 1 <= #[trigger] values_below(m, d)[t] <= d
                && has_digit(m, values_below(m, d)[t] as int),
        forall|e: int| 1 <= e <= d && has_digit(m, e) ==> values_below(m, d).contains(e as i32),
        forall|t1: int, t2: int|
            0 <= t1 < t2 < values_below(m, d).len() ==> values_below(m, d)[t1] < values_below(
                m,
                d,
            )[t2],
    decreases d,
{
    if d > 0 {
        lemma_values_below_props(m, d - 1);
        let prev = values_below(m, d - 1);
        if has_digit(m, d) {
            let cur = values_below(m, d);
            assert(cur == prev.push(d as i32));
            assert(cur[prev.len() as int] == d as i32);
            assert forall|e: int| 1 <= e <= d && has_digit(m, e) implies cur.contains(
                e as i32,
            ) by {
                if e == d {
                    assert(cur[prev.len() as int] == e as i32);
                } else {
                    assert(prev.contains(e as i32));
                    let t = choose|t: int| 0 <= t < prev.len() && prev[t] == e as i32;
                    assert(cur[t] == e as i32);
                }
            }
        }
    }
}

/// A mask with one candidate holds no other.
pub proof fn lemma_count_one_unique(m: u16, d1: int, d2: int)
    requires
        sing(m, d1),
        has_digit(m, d2),
    ensures
        d1 == d2,
{
    lemma_values_below_props(m, 9);
    let vs = values_of(m);
    assert(vs.contains(d1 as i32));
    assert(vs.contains(d2 as i32));
    let t1 = choose|t: int| 0 <= t < vs.len() && vs[t] == d1 as i32;
    let t2 = choose|t: int| 0 <= t < vs.len() && vs[t] == d2 as i32;
    assert(t1 == 0 && t2 == 0);
}

/// A candidate makes the count positive.
pub proof fn lemma_has_count_pos(m: u16, d: int)
    requires
        has_digit(m, d),
    ensures
        count_of(m) >= 1,
{
    lemma_values_below_props(m, 9);
    assert(values_of(m).contains(d as i32));
}

/// If no digit up to `d` is a candidate, the sequence up to `d` is empty.
proof fn lemma_values_below_empty(m: u16, d: int)
    requires
        0 <= d <= 9,
        forall|e: int| 1 <= e <= d ==> !has_digit(m, e),
    ensures
        values_below(m, d).len() == 0,
    decreases d,
{
    if d > 0 {
        lemma_values_below_empty(m, d - 1);
    }
}

/// The zero mask has no candidates; a nonzero well-formed mask has one.
pub proof fn lemma_count_zero(m: u16)
    requires
        mask_wf(m),
    ensures
        (count_of(m) == 0) <==> (m == 0),
        m != 0 ==> exists|d: int| has_digit(m, d),
{
    if m == 0 {
        assert(forall|e: int| 1 <= e <= 9 ==> !has_digit(0u16, e)) by {
            assert(forall|k: u16| k < 9 ==> !bit_set(0u16, k)) by (bit_vector);
        }
        lemma_values_below_empty(m, 9);
    } else {
        assert(bit_set(m, 0) || bit_set(m, 1) || bit_set(m, 2) || bit_set(m, 3) || bit_set(m, 4)
            || bit_set(m, 5) || bit_set(m, 6) || bit_set(m, 7) || bit_set(m, 8)) by (bit_vector)
            requires
                m != 0,
                m < 512,
        ;
        let k: u16 = choose|k: u16| k < 9 && bit_set(m, k);
        assert(has_digit(m, k + 1));
        lemma_has_count_pos(m, k + 1);
    }
}

/// Masks that agree on the digits up to `d` agree on `values_below`.
proof fn lemma_values_congruent(m1: u16, m2: u16, d: int)
    requires
        0 <= d <= 9,
        forall|e: int| 1 <= e <= d ==> (has_digit(m1, e) <==> has_digit(m2, e)),
    ensures
        values_below(m1, d) == values_below(m2, d),
    decreases d,
{
    if d > 0 {
        lemma_values_congruent(m1, m2, d - 1);
    }
}

/// Digit-subset masks have no greater a count; missing one digit makes it
/// strictly smaller.
pub proof fn lemma_sub_digits_count(m1: u16, m2: u16, d: int)
    requires
        0 <= d <= 9,
        forall|e: int| has_digit(m1, e) ==> has_digit(m2, e),
    ensures
        values_below(m1, d).len() <= values_below(m2, d).len(),
        forall|e: int|
            1 <= e <= d && has_digit(m2, e) && !has_digit(m1, e) ==> values_below(m1, d).len()
                < values_below(m2, d).len(),
    decreases d,
{
    if d > 0 {
        lemma_sub_digits_count(m1, m2, d - 1);
    }
}

/// Removing digit `v` clears exactly that candidate and keeps the mask
/// well-formed.
pub proof fn lemma_remove_digit(m: u16, v: int)
    requires
        1 <= v <= 9,
    ensures
        forall|d: int|
            #[trigger] has_digit((m & !mask_of(v)), d) <==> (has_digit(m, d) && d != v),
        mask_wf(m) ==> mask_wf((m & !mask_of(v))),
        !has_digit(m, v) ==> (m & !mask_of(v)) == m,
{
    let j = (v - 1) as u16;
    assert forall|d: int| #[trigger] has_digit((m & !mask_of(v)), d) <==> (has_digit(m, d) && d
        != v) by {
        if 1 <= d <= 9 {
            let k = (d - 1) as u16;
            assert(bit_set((m & !(1u16 << j)), k) <==> (bit_set(m, k) && k != j)) by (bit_vector)
                requires
                    k < 9,
                    j < 9,
            ;
        }
    }
    assert(m < 512 ==> (m & !(1u16 << j)) < 512) by (bit_vector);
    assert(!bit_set(m, j) ==> (m & !(1u16 << j)) == m) by (bit_vector)
        requires
            j < 9,
    ;
}

/// The singleton mask for `v` holds exactly the digit `v`.
pub proof fn lemma_mask_of_digit(v: int)
    requires
        1 <= v <= 9,
    ensures
        forall|d: int| #[trigger] has_digit(mask_of(v), d) <==> d == v,
        mask_wf(mask_of(v)),
        count_of(mask_of(v)) == 1,
        values_of(mask_of(v)) == seq![v as i32],
        sing(mask_of(v), v),
{
    let j = (v - 1) as u16;
    assert forall|d: int| #[trigger] has_digit(mask_of(v), d) <==> d == v by {
        if 1 <= d <= 9 {
            let k = (d - 1) as u16;
            assert(bit_set((1u16 << j), k) <==> k == j) by (bit_vector)
                requires
                    k < 9,
                    j < 9,
            ;
        }
    }
    assert((1u16 << j) < 512) by (bit_vector)
        requires
            j < 9,
    ;
    lemma_mask_of_values(v, 9);
    assert(values_of(mask_of(v)) == seq![v as i32]);
}

/// `values_below` of a singleton mask.
proof fn lemma_mask_of_values(v: int, d: int)
    requires
        1 <= v <= 9,
        0 <= d <= 9,
        forall|e: int| #[trigger] has_digit(mask_of(v), e) <==> e == v,
    ensures
        d >= v ==> values_below(mask_of(v), d) == seq![v as i32],
        d < v ==> values_below(mask_of(v), d) == Seq::<i32>::empty(),
    decreases d,
{
    if d > 0 {
        lemma_mask_of_values(v, d - 1);
        if d == v {
            assert(values_below(mask_of(v), d) == Seq::<i32>::empty().push(v as i32));
            assert(Seq::<i32>::empty().push(v as i32) == seq![v as i32]);
        }
    } else {
        assert(values_below(mask_of(v), d) == Seq::<i32>::empty());
    }
}

/// Adding digit `v` sets exactly that candidate.
pub proof fn lemma_add_digit(m: u16, v: int)
    requires
        1 <= v <= 9,
    ensures
        forall|d: int| #[trigger] has_digit((m | mask_of(v)), d) <==> (has_digit(m, d) || d == v),
        mask_wf(m) ==> mask_wf((m | mask_of(v))),
{
    let j = (v - 1) as u16;
    assert forall|d: int| #[trigger] has_digit((m | mask_of(v)), d) <==> (has_digit(m, d) || d
        == v) by {
        if 1 <= d <= 9 {
            let k = (d - 1) as u16;
            assert(bit_set((m | (1u16 << j)), k) <==> (bit_set(m, k) || k == j)) by (bit_vector)
                requires
                    k < 9,
                    j < 9,
            ;
        }
    }
    assert(m < 512 ==> (m | (1u16 << j)) < 512) by (bit_vector)
        requires
            j < 9,
    ;
}

/// The full mask holds every digit.
pub proof fn lemma_full_mask()
    ensures
        forall|d: int| #[trigger] has_digit(0x1ffu16, d) <==> 1 <= d <= 9,
        mask_wf(0x1ffu16),
        count_of(0x1ffu16) == 9,
{
    assert forall|d: int| #[trigger] has_digit(0x1ffu16, d) <==> 1 <= d <= 9 by {
        if 1 <= d <= 9 {
            let k = (d - 1) as u16;
            assert(bit_set(0x1ffu16, k)) by (bit_vector)
                requires
                    k < 9,
            ;
        }
    }
    lemma_full_values(9);
}

/// `values_below` of the full mask has one entry per digit.
proof fn lemma_full_values(d: int)
    requires
        0 <= d <= 9,
        forall|e: int| #[trigger] has_digit(0x1ffu16, e) <==> 1 <= e <= 9,
    ensures
        values_below(0x1ffu16, d).len() == d,
    decreases d,
{
    if d > 0 {
        lemma_full_values(d - 1);
    }
}

/// A nonzero mask whose candidates all equal `d` is the singleton mask of `d`.
pub proof fn lemma_sub_of_singleton(m: u16, v: int)
    requires
        1 <= v <= 9,
        mask_wf(m),
        m != 0,
        forall|d: int| has_digit(m, d) ==> d == v,
    ensures
        m == mask_of(v),
{
    lemma_count_zero(m);
    let e = choose|e: int| has_digit(m, e);
    assert(has_digit(m, v));
    let j = (v - 1) as u16;
    assert forall|k: u16| k < 9 implies (bit_set(m, k) <==> k == j) by {
        assert(has_digit(m, k + 1) <==> k + 1 == v);
    }
    assert(m == (1u16 << j)) by (bit_vector)
        requires
            m < 512,
            j < 9,
            bit_set(m, 0) <==> (0u16 == j),
            bit_set(m, 1) <==> (1u16 == j),
            bit_set(m, 2) <==> (2u16 == j),
            bit_set(m, 3) <==> (3u16 == j),
            bit_set(m, 4) <==> (4u16 == j),
            bit_set(m, 5) <==> (5u16 == j),
            bit_set(m, 6) <==> (6u16 == j),
            bit_set(m, 7) <==> (7u16 == j),
            bit_set(m, 8) <==> (8u16 == j),
    ;
}

/// Digit-subset masks compose.
pub proof fn lemma_sub_digits_trans(m1: u16, m2: u16, m3: u16)
    requires
        sub_digits(m1, m2),
        sub_digits(m2, m3),
    ensures
        sub_digits(m1, m3),
{
}

/// A candidate set for one grid cell.
#[derive(Debug, Copy, Clone, PartialEq, Eq, Structural)]
pub struct Cell {
    values: u16,
}

impl Cell {
    /// The underlying bitmask.
    pub closed spec fn mask(self) -> u16 {
        self.values
    }

    /// The mask uses only the nine digit bits.
    pub open spec fn wf(self) -> bool {
        mask_wf(self.mask())
    }

    /// Digit `d` is still a candidate.
    pub open spec fn has(self, d: int) -> bool {
        has_digit(self.mask(), d)
    }

    /// The number of remaining candidates.
    pub open spec fn count_spec(self) -> nat {
        count_of(self.mask())
    }

    /// All nine digits remain possible.
    pub fn with_all() -> (r: Self)
        ensures
            r.mask() == 0x1ffu16,
            r.wf(),
            r.count_spec() == 9,
            forall|d: int| #[trigger] r.has(d) <==> 1 <= d <= 9,
    {
        proof {
            lemma_full_mask();
        }
        Self { values: 0x1ff }
    }

    /// No digit remains possible: the contradiction state.
    pub fn empty() -> (r: Self)
        ensures
            r.mask() == 0u16,
            r.wf(),
            r.count_spec() == 0,
            forall|d: int| !r.has(d),
    {
        proof {
            lemma_count_zero(0u16);
            assert(forall|d: int| 1 <= d <= 9 ==> !has_digit(0u16, d)) by {
                assert(forall|k: u16| k < 9 ==> !bit_set(0u16, k)) by (bit_vector);
            }
        }
        Self { values: 0 }
    }

    /// The set holding exactly the given digits.
    pub fn with_values(values: &[i32]) -> (r: Self)
        requires
            forall|t: int| 0 <= t < values@.len() ==> 1 <= #[trigger] values@[t] <= 9,
        ensures
            r.wf(),
            forall|d: i32| #[trigger] r.has(d as int) <==> values@.contains(d),
    {
        let mut cell = Self::empty();
        let mut i: usize = 0;
        while i < values.len()
            invariant
                forall|t: int| 0 <= t < values@.len() ==> 1 <= #[trigger] values@[t] <= 9,
                i <= values@.len(),
                cell.wf(),
                forall|d: i32| #[trigger] cell.has(d as int) <==> values@.subrange(
                    0,
                    i as int,
                ).contains(d),
            decreases values@.len() - i,
        {
            let v = values[i];
            let next = cell.add(v);
            proof {
                let pre = values@.subrange(0, i as int);
                let post = values@.subrange(0, i as int + 1);
                assert(post == pre.push(v));
                assert forall|d: i32| #[trigger] next.has(d as int) implies post.contains(d) by {
                    if cell.has(d as int) {
                        let t = choose|t: int| 0 <= t < pre.len() && pre[t] == d;
                        assert(post[t] == d);
                    } else {
                        assert(post[pre.len() as int] == d);
                    }
                }
                assert forall|d: i32| post.contains(d) implies next.has(d as int) by {
                    let t = choose|t: int| 0 <= t < post.len() && post[t] == d;
                    if t < pre.len() {
                        assert(pre[t] == d);
                    }
                }
            }
            cell = next;
            i += 1;
        }
        proof {
            assert(values@.subrange(0, values@.len() as int) == values@);
        }
        cell
    }

    /// Add digit `v` to the candidates.
    pub fn add(self, v: i32) -> (r: Self)
        requires
            1 <= v <= 9,
        ensures
            self.wf() ==> r.wf(),
            forall|d: int| #[trigger] r.has(d) <==> (self.has(d) || d == v),
    {
        let nv: u16 = self.values | (1u16 << ((v - 1) as u16));
        proof {
            lemma_add_digit(self.values, v as int);
            assert(nv == (self.values | mask_of(v as int)));
        }
        Self { values: nv }
    }

    /// Remove digit `v` from the candidates; a no-op if it is absent.
    pub fn remove(self, v: i32) -> (r: Self)
        requires
            1 <= v <= 9,
        ensures
            self.wf() ==> r.wf(),
            forall|d: int| #[trigger] r.has(d) <==> (self.has(d) && d != v),
            self.has(v as int) ==> self.count_spec() >= 1 && r.count_spec() == (
            self.count_spec() - 1) as nat,
            !self.has(v as int) ==> r == self,
    {
        proof {
            lemma_remove_digit(self.values, v as int);
            lemma_sub_digits_count((self.values & !mask_of(v as int)), self.values, 9);
            if self.has(v as int) {
                lemma_has_count_pos(self.values, v as int);
                lemma_remove_count(self.values, v as int);
            }
        }
        Self { values: self.values & !(1u16 << ((v - 1) as u16)) }
    }

    /// The single remaining digit, if the cell is solved.
    pub fn solution(self) -> (r: Option<i32>)
        ensures
            match r {
                Some(d) => sing(self.mask(), d as int) && 1 <= d <= 9,
                None => self.count_spec() != 1,
            },
    {
        let vs = self.values();
        if vs.len() == 1 {
            proof {
                lemma_values_below_props(self.values, 9);
            }
            Some(vs[0])
        } else {
            None
        }
    }

    /// Digit `v` is still a candidate.
    pub fn contains(self, v: i32) -> (r: bool)
        requires
            1 <= v <= 9,
        ensures
            r == self.has(v as int),
    {
        proof {
            lemma_mask_of_digit(v as int);
            let m: u16 = self.values;
            let j = (v - 1) as u16;
            assert((m & (1u16 << j) != 0) <==> bit_set(m, j)) by (bit_vector)
                requires
                    j < 9,
            ;
        }
        self.values & (1u16 << ((v - 1) as u16)) != 0
    }

    /// No candidate remains: this cell is contradictory.
    pub fn is_empty(self) -> (r: bool)
        ensures
            r <==> self.mask() == 0u16,
            self.wf() ==> (r <==> self.count_spec() == 0),
    {
        proof {
            if self.wf() {
                lemma_count_zero(self.values);
            }
        }
        self.values == 0
    }

    /// How many candidates remain.
    pub fn count(self) -> (r: usize)
        ensures
            r == self.count_spec(),
    {
        let vs = self.values();
        vs.len()
    }

    /// The remaining digits, in ascending order.
    pub fn values(self) -> (r: Vec<i32>)
        ensures
            r@ == values_of(self.mask()),
    {
        let mut out: Vec<i32> = Vec::new();
        let mut d: i32 = 1;
        while d <= 9
            invariant
                1 <= d <= 10,
                out@ == values_below(self.mask(), d - 1),
            decreases 10 - d,
        {
            if self.contains(d) {
                out.push(d);
                proof {
                    assert(out@ == values_below(self.mask(), d as int));
                }
            }
            d += 1;
        }
        out
    }

    /// Collapse to exactly the digit `v`, discarding all other candidates.
    pub fn assign(self, v: i32) -> (r: Self)
        requires
            1 <= v <= 9,
        ensures
            r.mask() == mask_of(v as int),
            r.wf(),
            r.count_spec() == 1,
            sing(r.mask(), v as int),
            forall|d: int| #[trigger] r.has(d) <==> d == v,
    {
        proof {
            lemma_mask_of_digit(v as int);
        }
        Self { values: 1u16 << ((v - 1) as u16) }
    }
}

/// Removing a present digit lowers the count by exactly one.
proof fn lemma_remove_count(m: u16, v: int)
    requires
        1 <= v <= 9,
        has_digit(m, v),
    ensures
        count_of((m & !mask_of(v))) == count_of(m) - 1,
{
    lemma_remove_digit(m, v);
    lemma_remove_count_below(m, v, 9);
}

/// Induction for `lemma_remove_count`.
proof fn lemma_remove_count_below(m: u16, v: int, d: int)
    requires
        1 <= v <= 9,
        0 <= d <= 9,
        forall|e: int| #[trigger] has_digit((m & !mask_of(v)), e) <==> (has_digit(m, e) && e != v),
    ensures
        values_below((m & !mask_of(v)), d).len() == values_below(m, d).len() - (
        if v <= d && has_digit(m, v) {
            1int
        } else {
            0int
        }),
    decreases d,
{
    if d > 0 {
        lemma_remove_count_below(m, v, d - 1);
    }
}

} // verus!

