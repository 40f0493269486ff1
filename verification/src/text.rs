//! The 81-character text form of a grid: parsing puzzle strings and
//! rendering solutions.

use vstd::prelude::*;

use crate::cell::{
    has_digit, lemma_mask_of_digit, lemma_sub_of_singleton, lemma_values_below_props, mask_of,
    sub_digits, values_of, Cell,
};
use crate::peers::Peers;
use crate::puzzle::{compatible, valid_assignment, Puzzle, SudokuError};

verus! {

/// `a` assigns every given of the puzzle string `s` its stated digit.
pub open spec fn matches_givens(a: Seq<int>, s: Seq<char>) -> bool {
    forall|i: int|
        0 <= i < 81 && is_digit_char(#[trigger] s[i]) ==> a[i] == digit_of_char(s[i])
}

/// `c` is a given digit, '1' through '9' (codepoints 49 to 57).
pub open spec fn is_digit_char(c: char) -> bool {
    49 <= c as u32 <= 57
}

/// `c` leaves the cell unconstrained: '.' (codepoint 46) or '0' (48).
pub open spec fn is_blank_char(c: char) -> bool {
    c as u32 == 46 || c as u32 == 48
}

/// A character the puzzle encoding accepts.
pub open spec fn is_valid_char(c: char) -> bool {
    is_digit_char(c) || is_blank_char(c)
}

/// The digit that the character `c` denotes.
pub open spec fn digit_of_char(c: char) -> int {
    c as u32 - 48
}

/// Every character of `s` is accepted by the encoding.
pub open spec fn all_chars_valid(s: Seq<char>) -> bool {
    forall|i: int| 0 <= i < s.len() ==> is_valid_char(#[trigger] s[i])
}

/// The character for digit `d`.
pub open spec fn char_of_digit(d: int) -> char
    recommends
        1 <= d <= 9,
{
    if d == 1 {
        '1'
    } else if d == 2 {
        '2'
    } else if d == 3 {
        '3'
    } else if d == 4 {
        '4'
    } else if d == 5 {
        '5'
    } else if d == 6 {
        '6'
    } else if d == 7 {
        '7'
    } else if d == 8 {
        '8'
    } else {
        '9'
    }
}

/// How one cell renders in the solution view: its digit if solved, else '.'.
pub open spec fn solution_char(c: Cell) -> char {
    if c.count_spec() == 1 {
        char_of_digit(values_of(c.mask())[0] as int)
    } else {
        '.'
    }
}

/// The 81-character solution view of a grid.
pub open spec fn format_spec(p: Puzzle) -> Seq<char> {
    Seq::new(81, |i: int| solution_char(p.cell(i)))
}

/// A solved cell renders as a digit character, and that character reads back
/// as the cell's digit.
proof fn lemma_digit_char_codes(d: int)
    requires
        1 <= d <= 9,
    ensures
        is_digit_char(char_of_digit(d)),
        digit_of_char(char_of_digit(d)) == d,
{
}

/// The rendering of a solved, consistent grid parses back to it: its digits
/// are a valid assignment matching every given of the rendered string, and
/// every character of that string is a digit.
pub proof fn lemma_solved_grid_parses(p: Puzzle)
    requires
        p.wf(),
        p.solved(),
        p.consistent(),
    ensures
        format_spec(p).len() == 81,
        all_chars_valid(format_spec(p)),
        valid_assignment(crate::puzzle::digits_of(p)),
        matches_givens(crate::puzzle::digits_of(p), format_spec(p)),
{
    let s = format_spec(p);
    let a = crate::puzzle::digits_of(p);
    crate::puzzle::lemma_solved_digits_valid(p);
    assert forall|i: int| 0 <= i < 81 implies is_digit_char(#[trigger] s[i]) && digit_of_char(
        s[i],
    ) == a[i] by {
        lemma_values_below_props(p.cell(i).mask(), 9);
        assert(s[i] == char_of_digit(values_of(p.cell(i).mask())[0] as int));
        lemma_digit_char_codes(a[i]);
    }
    assert forall|i: int| 0 <= i < s.len() implies is_valid_char(#[trigger] s[i]) by {
        assert(is_digit_char(s[i]));
    }
}

/// Round trip: any well-formed grid whose givens match the rendering of a
/// solved grid `p` — which is what parsing that rendering yields — renders
/// to the identical string again.
pub proof fn lemma_format_parse_roundtrip(p: Puzzle, q: Puzzle)
    requires
        p.wf(),
        p.solved(),
        q.wf(),
        forall|i: int|
            0 <= i < 81 && is_digit_char(#[trigger] format_spec(p)[i]) ==> q.cell(i).mask()
                == mask_of(digit_of_char(format_spec(p)[i])),
    ensures
        format_spec(q) == format_spec(p),
{
    let s = format_spec(p);
    assert forall|i: int| 0 <= i < 81 implies format_spec(q)[i] == s[i] by {
        let m = p.cell(i).mask();
        lemma_values_below_props(m, 9);
        let d = values_of(m)[0] as int;
        assert(s[i] == char_of_digit(d));
        lemma_digit_char_codes(d);
        assert(q.cell(i).mask() == mask_of(d));
        lemma_mask_of_digit(d);
        assert(values_of(q.cell(i).mask()) == seq![d as i32]);
        assert(solution_char(q.cell(i)) == char_of_digit(d));
    }
    assert(format_spec(q) =~= s);
}

/// Append the character for digit `v`.
fn push_digit(out: &mut String, v: i32)
    requires
        1 <= v <= 9,
    ensures
        final(out)@ == old(out)@.push(char_of_digit(v as int)),
{
    let ghost pre = out@;
    if v == 1 {
        proof {
            reveal_strlit("1");
        }
        out.append("1");
    } else if v == 2 {
        proof {
            reveal_strlit("2");
        }
        out.append("2");
    } else if v == 3 {
        proof {
            reveal_strlit("3");
        }
        out.append("3");
    } else if v == 4 {
        proof {
            reveal_strlit("4");
        }
        out.append("4");
    } else if v == 5 {
        proof {
            reveal_strlit("5");
        }
        out.append("5");
    } else if v == 6 {
        proof {
            reveal_strlit("6");
        }
        out.append("6");
    } else if v == 7 {
        proof {
            reveal_strlit("7");
        }
        out.append("7");
    } else if v == 8 {
        proof {
            reveal_strlit("8");
        }
        out.append("8");
    } else {
        proof {
            reveal_strlit("9");
        }
        out.append("9");
    }
    proof {
        assert(out@ =~= pre.push(char_of_digit(v as int)));
    }
}

impl Puzzle {
    /// Parse the 81-character encoding: digits are givens, '.' and '0' leave
    /// the cell open. Givens are assigned left to right, propagating as they
    /// go, so contradictory givens surface as a conflict here.
    pub fn from_str(peers: &Peers, s: &str) -> (r: Result<Puzzle, SudokuError>)
        requires
            peers.wf(),
        ensures
            match r {
                Ok(p) => {
                    &&& s@.len() == 81
                    &&& all_chars_valid(s@)
                    &&& p.wf()
                    &&& p.all_nonempty()
                    &&& p.consistent()
                    &&& forall|i: int|
                        0 <= i < 81 && is_digit_char(#[trigger] s@[i]) ==> p.cell(i).mask()
                            == mask_of(digit_of_char(s@[i]))
                    &&& forall|a: Seq<int>|
                        valid_assignment(a) && matches_givens(a, s@) ==> compatible(a, p)
                },
                Err(SudokuError::BadLength { len }) => len == s@.len() && s@.len() != 81,
                Err(SudokuError::InvalidChar { index, found }) => {
                    &&& s@.len() == 81
                    &&& index < 81
                    &&& found == s@[index as int]
                    &&& !is_valid_char(found)
                    &&& forall|j: int| 0 <= j < index ==> is_valid_char(#[trigger] s@[j])
                },
                Err(SudokuError::Conflict) => {
                    &&& s@.len() == 81
                    &&& all_chars_valid(s@)
                    &&& forall|a: Seq<int>| !(valid_assignment(a) && matches_givens(a, s@))
                },
            },
    {
        let n = s.unicode_len();
        if n != 81 {
            return Err(SudokuError::BadLength { len: n });
        }
        let mut i: usize = 0;
        while i < 81
            invariant
                s@.len() == 81,
                i <= 81,
                forall|j: int| 0 <= j < i ==> is_valid_char(#[trigger] s@[j]),
            decreases 81 - i,
        {
            let c = s.get_char(i);
            let code = c as u32;
            if !((49 <= code && code <= 57) || code == 46 || code == 48) {
                return Err(SudokuError::InvalidChar { index: i, found: c });
            }
            i += 1;
        }
        let mut p = Puzzle::new();
        let mut k: usize = 0;
        while k < 81
            invariant
                peers.wf(),
                s@.len() == 81,
                all_chars_valid(s@),
                k <= 81,
                p.wf(),
                p.all_nonempty(),
                p.consistent(),
                forall|j: int|
                    0 <= j < k && is_digit_char(#[trigger] s@[j]) ==> p.cell(j).mask() == mask_of(
                        digit_of_char(s@[j]),
                    ),
                forall|a: Seq<int>|
                    valid_assignment(a) && matches_givens(a, s@) ==> compatible(a, p),
            decreases 81 - k,
        {
            let c = s.get_char(k);
            let code = c as u32;
            if 49 <= code && code <= 57 {
                let v: i32 = (code - 48) as i32;
                proof {
                    assert(is_digit_char(s@[k as int]));
                    assert(v as int == digit_of_char(s@[k as int]));
                }
                let ghost before = p;
                match p.assign(peers, k, v) {
                    Err(_) => {
                        proof {
                            assert forall|a: Seq<int>|
                                valid_assignment(a) && matches_givens(a, s@) implies false by {
                                assert(compatible(a, before));
                                assert(a[k as int] == digit_of_char(s@[k as int]));
                            }
                        }
                        return Err(SudokuError::Conflict);
                    },
                    Ok(()) => {
                        proof {
                            lemma_mask_of_digit(v as int);
                            assert forall|j: int|
                                0 <= j < k + 1 && is_digit_char(#[trigger] s@[j]) implies p.cell(
                                j,
                            ).mask() == mask_of(digit_of_char(s@[j])) by {
                                if j < k {
                                    let dj = digit_of_char(s@[j]);
                                    assert(before.cell(j).mask() == mask_of(dj));
                                    assert(sub_digits(p.cell(j).mask(), before.cell(j).mask()));
                                    lemma_mask_of_digit(dj);
                                    assert forall|d: int|
                                        has_digit(p.cell(j).mask(), d) implies d == dj by {
                                        assert(has_digit(before.cell(j).mask(), d));
                                    }
                                    assert(p.cell(j).mask() != 0);
                                    lemma_sub_of_singleton(p.cell(j).mask(), dj);
                                }
                            }
                            assert forall|a: Seq<int>|
                                valid_assignment(a) && matches_givens(a, s@) implies compatible(
                                a,
                                p,
                            ) by {
                                assert(compatible(a, before));
                                assert(a[k as int] == digit_of_char(s@[k as int]));
                            }
                        }
                    },
                }
            }
            k += 1;
        }
        Ok(p)
    }

    /// Render the solution view: one digit per solved cell, '.' for any cell
    /// that still has several candidates.
    pub fn format(&self) -> (r: String)
        ensures
            r@ == format_spec(*self),
    {
        let mut out = String::new();
        let mut i: usize = 0;
        while i < 81
            invariant
                i <= 81,
                out@ =~= format_spec(*self).subrange(0, i as int),
            decreases 81 - i,
        {
            let cell = self.get(i);
            match cell.solution() {
                Some(v) => {
                    proof {
                        lemma_values_below_props(cell.mask(), 9);
                        assert(values_of(cell.mask()).contains(v));
                        let t = choose|t: int|
                            0 <= t < values_of(cell.mask()).len() && values_of(cell.mask())[t]
                                == v;
                        assert(t == 0);
                        assert(solution_char(cell) == char_of_digit(v as int));
                    }
                    push_digit(&mut out, v);
                },
                None => {
                    proof {
                        reveal_strlit(".");
                        assert(solution_char(cell) == '.');
                    }
                    out.append(".");
                },
            }
            proof {
                assert(out@ =~= format_spec(*self).subrange(0, i as int + 1));
            }
            i += 1;
        }
        proof {
            assert(format_spec(*self).subrange(0, 81) =~= format_spec(*self));
        }
        out
    }
}

/// `n` copies of the character `c`.
pub open spec fn repeat_char(c: char, n: int) -> Seq<char>
    decreases n,
{
    if n <= 0 {
        Seq::empty()
    } else {
        repeat_char(c, n - 1).push(c)
    }
}

/// The digits of a candidate set, as characters in ascending order.
pub open spec fn digits_seq(m: u16) -> Seq<char> {
    Seq::new(values_of(m).len(), |t: int| char_of_digit(values_of(m)[t] as int))
}

/// `s` centered in a field of width `w`, padded with spaces; extra padding
/// goes to the right.
pub open spec fn centered(s: Seq<char>, w: int) -> Seq<char> {
    if s.len() >= w {
        s
    } else {
        repeat_char(' ', (w - s.len()) / 2) + s + repeat_char(
            ' ',
            (w - s.len()) - (w - s.len()) / 2,
        )
    }
}

/// One cell of the candidate view: its digits centered in width `w`, with a
/// space on either side.
pub open spec fn cell_entry(m: u16, w: int) -> Seq<char> {
    seq![' '] + centered(digits_seq(m), w) + seq![' ']
}

/// The horizontal rule between bands of three rows.
pub open spec fn divider_of(w: int) -> Seq<char> {
    seq!['\n'] + repeat_char('-', 3 * (w + 2)) + seq!['+'] + repeat_char('-', 3 * (w + 2))
        + seq!['+'] + repeat_char('-', 3 * (w + 2)) + seq!['\n']
}

/// What separates cell `i` from the cell before it.
pub open spec fn sep_before(i: int, divider: Seq<char>) -> Seq<char> {
    if i == 0 {
        Seq::empty()
    } else if i % 27 == 0 {
        divider
    } else if i % 9 == 0 {
        seq!['\n']
    } else if i % 3 == 0 {
        seq!['|']
    } else {
        Seq::empty()
    }
}

/// The candidate view of the first `n` cells.
pub open spec fn candidates_prefix(p: Puzzle, w: int, n: int) -> Seq<char>
    decreases n,
{
    if n <= 0 {
        Seq::empty()
    } else {
        candidates_prefix(p, w, n - 1) + sep_before(n - 1, divider_of(w)) + cell_entry(
            p.cell(n - 1).mask(),
            w,
        )
    }
}

/// The widest cell's candidate count among the first `n` cells.
pub open spec fn max_count_below(p: Puzzle, n: int) -> nat
    decreases n,
{
    if n <= 0 {
        0
    } else if p.cell(n - 1).count_spec() > max_count_below(p, n - 1) {
        p.cell(n - 1).count_spec()
    } else {
        max_count_below(p, n - 1)
    }
}

/// The whole candidate view: all remaining candidates per cell, in a grid
/// with box separators.
pub open spec fn candidates_spec(p: Puzzle) -> Seq<char> {
    candidates_prefix(p, max_count_below(p, 81) as int, 81)
}

/// Append `n` spaces.
fn push_spaces(out: &mut String, n: usize)
    ensures
        final(out)@ == old(out)@ + repeat_char(' ', n as int),
{
    let mut i: usize = 0;
    while i < n
        invariant
            i <= n,
            out@ =~= old(out)@ + repeat_char(' ', i as int),
        decreases n - i,
    {
        proof {
            reveal_strlit(" ");
        }
        out.append(" ");
        proof {
            assert(out@ =~= old(out)@ + repeat_char(' ', i as int + 1));
        }
        i += 1;
    }
}

/// Append `n` dashes.
fn push_dashes(out: &mut String, n: usize)
    ensures
        final(out)@ == old(out)@ + repeat_char('-', n as int),
{
    let mut i: usize = 0;
    while i < n
        invariant
            i <= n,
            out@ =~= old(out)@ + repeat_char('-', i as int),
        decreases n - i,
    {
        proof {
            reveal_strlit("-");
        }
        out.append("-");
        proof {
            assert(out@ =~= old(out)@ + repeat_char('-', i as int + 1));
        }
        i += 1;
    }
}

impl Puzzle {
    /// Render every cell's remaining candidates in a human-readable grid
    /// with box separators, for diagnostic use.
    pub fn format_candidates(&self) -> (r: String)
        ensures
            r@ == candidates_spec(*self),
    {
        let mut w: usize = 0;
        let mut i: usize = 0;
        while i < 81
            invariant
                i <= 81,
                w == max_count_below(*self, i as int),
                w <= 9,
            decreases 81 - i,
        {
            let c = self.get(i).count();
            proof {
                lemma_values_below_props(self.cell(i as int).mask(), 9);
            }
            if c > w {
                w = c;
            }
            i += 1;
        }
        let mut divider = String::new();
        proof {
            reveal_strlit("\n");
            reveal_strlit("+");
        }
        divider.append("\n");
        push_dashes(&mut divider, 3 * (w + 2));
        divider.append("+");
        push_dashes(&mut divider, 3 * (w + 2));
        divider.append("+");
        push_dashes(&mut divider, 3 * (w + 2));
        divider.append("\n");
        proof {
            assert(divider@ =~= divider_of(w as int));
        }
        let mut out = String::new();
        let mut i: usize = 0;
        while i < 81
            invariant
                i <= 81,
                w == max_count_below(*self, 81),
                w <= 9,
                divider@ == divider_of(w as int),
                out@ =~= candidates_prefix(*self, w as int, i as int),
            decreases 81 - i,
        {
            let ghost pre = out@;
            proof {
                reveal_strlit("\n");
                reveal_strlit("|");
                reveal_strlit(" ");
            }
            if i == 0 {
            } else if i % 27 == 0 {
                out.append(divider.as_str());
            } else if i % 9 == 0 {
                out.append("\n");
            } else if i % 3 == 0 {
                out.append("|");
            }
            proof {
                assert(out@ =~= pre + sep_before(i as int, divider_of(w as int)));
            }
            let ghost pre2 = out@;
            let cell = self.get(i);
            let vals = cell.values();
            proof {
                lemma_values_below_props(cell.mask(), 9);
            }
            out.append(" ");
            let mut digits = String::new();
            let mut t: usize = 0;
            while t < vals.len()
                invariant
                    t <= vals@.len(),
                    vals@ == values_of(cell.mask()),
                    forall|u: int| 0 <= u < vals@.len() ==> 1 <= #[trigger] vals@[u] <= 9,
                    digits@ =~= digits_seq(cell.mask()).subrange(0, t as int),
                decreases vals@.len() - t,
            {
                push_digit(&mut digits, vals[t]);
                proof {
                    assert(digits@ =~= digits_seq(cell.mask()).subrange(0, t as int + 1));
                }
                t += 1;
            }
            proof {
                assert(digits@ =~= digits_seq(cell.mask()));
            }
            if digits.as_str().unicode_len() < w {
                let pad = w - digits.as_str().unicode_len();
                push_spaces(&mut out, pad / 2);
                out.append(digits.as_str());
                push_spaces(&mut out, pad - pad / 2);
            } else {
                out.append(digits.as_str());
            }
            out.append(" ");
            proof {
                assert(out@ =~= pre2 + cell_entry(cell.mask(), w as int));
                assert(out@ =~= candidates_prefix(*self, w as int, i as int + 1));
            }
            i += 1;
        }
        out
    }
}

} // verus!
