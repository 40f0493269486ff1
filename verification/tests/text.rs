use sudoku::peers::get_peers;
use sudoku::puzzle::Puzzle;

const EASY: &str = "53..7....6..195....98....6.8...6...34..8.3..17...2...6.6....28....419..5....8..79";
const EASY_SOLUTION: &str =
    "534678912672195348198342567859761423426853791713924856961537284287419635345286179";

#[test]
fn parse_then_format_is_identity_on_solved_grids() {
    let peers = get_peers();
    let parsed = Puzzle::from_str(&peers, EASY_SOLUTION).unwrap();
    assert_eq!(EASY_SOLUTION, parsed.format());
}

#[test]
fn format_marks_unsolved_cells_with_dots() {
    let peers = get_peers();
    let mut s = String::from("5");
    s.push_str(&".".repeat(80));
    let p = Puzzle::from_str(&peers, &s).unwrap();
    let out = p.format();
    assert_eq!(81, out.len());
    assert!(out.starts_with('5'));
    assert_eq!(&".".repeat(80), &out[1..]);
}

#[test]
fn candidate_view_of_a_solved_grid() {
    let peers = get_peers();
    let p = Puzzle::from_str(&peers, EASY_SOLUTION).unwrap();
    let expected = " 5  3  4 | 6  7  8 | 9  1  2 \n 6  7  2 | 1  9  5 | 3  4  8 \n 1  9  8 | 3  4  2 | 5  6  7 \n---------+---------+---------\n 8  5  9 | 7  6  1 | 4  2  3 \n 4  2  6 | 8  5  3 | 7  9  1 \n 7  1  3 | 9  2  4 | 8  5  6 \n---------+---------+---------\n 9  6  1 | 5  3  7 | 2  8  4 \n 2  8  7 | 4  1  9 | 6  3  5 \n 3  4  5 | 2  8  6 | 1  7  9 ";
    assert_eq!(expected, p.format_candidates());
}

#[test]
fn candidate_view_centers_narrow_entries() {
    let peers = get_peers();
    // two givens leave distant cells with all nine candidates, so the
    // solved cells' single digits sit centered in a width-nine field
    let mut s = String::from("12");
    s.push_str(&".".repeat(79));
    let p = Puzzle::from_str(&peers, &s).unwrap();
    let out = p.format_candidates();
    assert!(out.starts_with("     1          2     "));
}
