use sudoku::Cell;
use sudoku::Puzzle;

const FIXTURE: &str = "100009006020700050003080400009400003080050100700006020000003700000020080000100009";
const FIXTURE_SOLUTION: &str =
    "178549236624731958593682417259418673386257194741396825915863742467925381832174569";

fn solve_text(input: &str, cap: usize) -> Vec<Puzzle> {
    let mut puzzle = Puzzle::from_text(input);
    let mut result: Vec<Puzzle> = Vec::new();
    puzzle.sweep();
    puzzle.recursive_solve(&mut result, cap);
    result
}

fn digit_at(text: &str, row: usize, col: usize) -> u8 {
    text.as_bytes()[9 * row + col]
}

fn assert_valid_solution(text: &str) {
    assert_eq!(text.len(), 81);
    for row in 0..9 {
        for digit in b'1'..=b'9' {
            let count = (0..9).filter(|&col| digit_at(text, row, col) == digit).count();
            assert_eq!(count, 1, "row {} should hold digit {} exactly once", row, digit);
        }
    }
    for col in 0..9 {
        for digit in b'1'..=b'9' {
            let count = (0..9).filter(|&row| digit_at(text, row, col) == digit).count();
            assert_eq!(count, 1, "column {} should hold digit {} exactly once", col, digit);
        }
    }
    for boxi in 0..9 {
        for digit in b'1'..=b'9' {
            let mut count = 0;
            for k in 0..9 {
                let row = 3 * (boxi / 3) + k / 3;
                let col = 3 * (boxi % 3) + k % 3;
                if digit_at(text, row, col) == digit {
                    count += 1;
                }
            }
            assert_eq!(count, 1, "box {} should hold digit {} exactly once", boxi, digit);
        }
    }
}

#[test]
fn fixture_has_unique_solution() {
    let result = solve_text(FIXTURE, 1);
    assert_eq!(result.len(), 1);
    let text = result[0].solved_string();
    assert_eq!(text, FIXTURE_SOLUTION);
    assert!(!text.contains('0'));
}

#[test]
fn fixture_cap_two_still_finds_one() {
    let result = solve_text(FIXTURE, 2);
    assert_eq!(result.len(), 1);
    assert_eq!(result[0].solved_string(), FIXTURE_SOLUTION);
}

#[test]
fn solutions_are_valid_grids() {
    // a sparse grid with many completions: each recorded one is valid
    let result = solve_text("123456789", 3);
    assert_eq!(result.len(), 3);
    for solution in result.iter() {
        assert_valid_solution(&solution.solved_string());
    }
}

#[test]
fn cap_is_respected_on_open_grid() {
    let result = solve_text("", 5);
    assert!(result.len() <= 5);
    assert_eq!(result.len(), 5);
}

#[test]
fn unsolvable_puzzle_yields_no_solutions() {
    // row 0 holds digits 1-8; the 9 in the same column as the open cell
    // leaves that cell with no candidate at all
    let result = solve_text("123456780000000009", 10);
    assert_eq!(result.len(), 0);
}

#[test]
fn sweep_eliminates_solved_peers() {
    let mut puzzle = Puzzle::from_text(FIXTURE);
    puzzle.sweep();
    for index in 0..81 {
        if let Cell::Candidates(cands) = puzzle.cell_at(index) {
            let row = index / 9;
            let col = index % 9;
            for peer in 0..81 {
                let prow = peer / 9;
                let pcol = peer % 9;
                let same_unit = prow == row || pcol == col || (prow / 3 == row / 3 && pcol / 3
                    == col / 3);
                if same_unit {
                    if let Cell::Solved(sc) = puzzle.cell_at(peer) {
                        assert!(
                            !cands[sc.value as usize],
                            "cell {} keeps value {} solved at peer {}",
                            index,
                            sc.value,
                            peer
                        );
                    }
                }
            }
        }
    }
}

#[test]
fn box_index_matches_canonical_formula() {
    assert_eq!(Puzzle::box_index(40), 4);
    for i in 0..81 {
        assert_eq!(Puzzle::box_index(i), 3 * ((i / 9) / 3) + (i % 9) / 3);
    }
}

#[test]
fn round_trip_preserves_solved_grid() {
    let result = solve_text(FIXTURE, 1);
    let solved = &result[0];
    let text = solved.solved_string();
    let mut reparsed = Puzzle::from_text(&text);
    reparsed.sweep();
    assert_eq!(reparsed.solved_string(), text);
    for i in 0..81 {
        let original = match solved.cell_at(i) {
            Cell::Solved(sc) => sc.value,
            Cell::Candidates(_) => panic!("solver left cell {} unsolved", i),
        };
        match reparsed.cell_at(i) {
            Cell::Solved(sc) => {
                assert_eq!(sc.value, original);
                assert!(sc.given);
            },
            Cell::Candidates(_) => panic!("round trip lost cell {}", i),
        }
    }
}

#[test]
fn parse_marks_givens_and_search_marks_derived() {
    let puzzle = Puzzle::from_text(FIXTURE);
    match puzzle.cell_at(0) {
        Cell::Solved(sc) => {
            assert_eq!(sc.value, 0); // digit '1'
            assert!(sc.given);
        },
        Cell::Candidates(_) => panic!("cell 0 of the fixture is a given"),
    }
    let result = solve_text(FIXTURE, 1);
    // cell 1 is open in the fixture; the search filled it
    match result[0].cell_at(1) {
        Cell::Solved(sc) => {
            assert_eq!(sc.value + 1, 7); // digit '7'
            assert!(!sc.given);
        },
        Cell::Candidates(_) => panic!("solution left cell 1 unsolved"),
    }
}

#[test]
fn parse_handles_short_and_unknown_input() {
    let short = Puzzle::from_text("53x07");
    let text = short.solved_string();
    assert_eq!(text.len(), 81);
    assert_eq!(&text[0..5], "53007");
    assert!(text[5..].chars().all(|c| c == '0'));

    let empty = Puzzle::from_text("");
    assert!(empty.solved_string().chars().all(|c| c == '0'));
    assert!(empty.well_formed());
}

#[test]
fn parse_ignores_excess_characters() {
    let mut long = String::from(FIXTURE);
    long.push_str("4444");
    let puzzle = Puzzle::from_text(&long);
    let plain = Puzzle::from_text(FIXTURE);
    assert_eq!(puzzle.solved_string(), plain.solved_string());
}
