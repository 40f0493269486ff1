use sudoku::peers::get_peers;
use sudoku::puzzle::{Puzzle, SudokuError};

const EASY: &str = "53..7....6..195....98....6.8...6...34..8.3..17...2...6.6....28....419..5....8..79";
const EASY_SOLUTION: &str =
    "534678912672195348198342567859761423426853791713924856961537284287419635345286179";

#[test]
fn solves_known_easy_puzzle() {
    let peers = get_peers();
    let puzzle = Puzzle::from_str(&peers, EASY).unwrap();
    let solution = puzzle.solve(&peers).unwrap();
    assert_eq!(EASY_SOLUTION, solution.format());
}

#[test]
fn empty_grid_yields_a_valid_complete_grid() {
    let peers = get_peers();
    let blank: String = std::iter::repeat('.').take(81).collect();
    let puzzle = Puzzle::from_str(&peers, &blank).unwrap();
    let solution = puzzle.solve(&peers).unwrap();
    // every cell solved, and no peer shares its digit
    for i in 0..81 {
        assert_eq!(1, solution.get(i).count());
        let d = solution.get(i).solution().unwrap();
        for &j in peers.peers_of(i).iter() {
            assert_ne!(Some(d), solution.get(j).solution());
        }
    }
}

#[test]
fn uniqueness_invariant_after_solve() {
    let peers = get_peers();
    let puzzle = Puzzle::from_str(&peers, EASY).unwrap();
    let solution = puzzle.solve(&peers).unwrap();
    for i in 0..81 {
        let d = solution.get(i).solution().unwrap();
        for &j in peers.peers_of(i).iter() {
            assert_ne!(Some(d), solution.get(j).solution());
        }
    }
}

#[test]
fn duplicate_given_in_a_row_is_a_conflict() {
    let peers = get_peers();
    let mut s = String::from("11");
    s.push_str(&".".repeat(79));
    assert!(matches!(Puzzle::from_str(&peers, &s), Err(SudokuError::Conflict)));
}

#[test]
fn unsatisfiable_givens_in_a_box_are_a_conflict() {
    let peers = get_peers();
    // cells 0 and 10 share the top-left box
    let mut s = String::from("7.........7");
    s.push_str(&".".repeat(70));
    assert!(matches!(Puzzle::from_str(&peers, &s), Err(SudokuError::Conflict)));
}

#[test]
fn letter_in_input_is_reported_with_its_position() {
    let peers = get_peers();
    let mut s = ".".repeat(80);
    s.push('x');
    assert!(matches!(
        Puzzle::from_str(&peers, &s),
        Err(SudokuError::InvalidChar { index: 80, found: 'x' })
    ));
    let mut t = ".".repeat(81);
    t.replace_range(3..4, "q");
    assert!(matches!(
        Puzzle::from_str(&peers, &t),
        Err(SudokuError::InvalidChar { index: 3, found: 'q' })
    ));
}

#[test]
fn wrong_length_is_reported() {
    let peers = get_peers();
    assert!(matches!(
        Puzzle::from_str(&peers, "....."),
        Err(SudokuError::BadLength { len: 5 })
    ));
    let long = ".".repeat(82);
    assert!(matches!(
        Puzzle::from_str(&peers, &long),
        Err(SudokuError::BadLength { len: 82 })
    ));
}

#[test]
fn tied_minimum_goes_to_the_lowest_index() {
    let peers = get_peers();
    // all cells tie with nine candidates: the first cell wins
    let blank = ".".repeat(81);
    let puzzle = Puzzle::from_str(&peers, &blank).unwrap();
    assert_eq!(0, puzzle.pick_cell());
    // with one given at cell 0, its twenty peers tie at eight candidates;
    // the lowest-indexed one is cell 1
    let mut s = String::from("5");
    s.push_str(&".".repeat(80));
    let puzzle = Puzzle::from_str(&peers, &s).unwrap();
    assert_eq!(1, puzzle.pick_cell());
}

#[test]
fn zero_and_dot_both_leave_a_cell_open() {
    let peers = get_peers();
    let mut s = String::from("0.");
    s.push_str(&".".repeat(79));
    let p = Puzzle::from_str(&peers, &s).unwrap();
    assert_eq!(9, p.get(0).count());
    assert_eq!(9, p.get(1).count());
}
