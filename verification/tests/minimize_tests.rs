use sudoku::Cell;
use sudoku::Puzzle;

const FIXTURE: &str = "100009006020700050003080400009400003080050100700006020000003700000020080000100009";
const FIXTURE_SOLUTION: &str =
    "178549236624731958593682417259418673386257194741396825915863742467925381832174569";

fn solved_fixture() -> Puzzle {
    let mut puzzle = Puzzle::from_text(FIXTURE);
    let mut result: Vec<Puzzle> = Vec::new();
    puzzle.sweep();
    puzzle.recursive_solve(&mut result, 1);
    assert_eq!(result.len(), 1);
    result.remove(0)
}

#[test]
fn minimize_preserves_uniqueness() {
    let mut minimized = solved_fixture();
    minimized.minimize_puzzle();
    let mut trial = minimized.clone();
    let mut result: Vec<Puzzle> = Vec::new();
    trial.sweep();
    trial.recursive_solve(&mut result, 2);
    assert_eq!(result.len(), 1);
    assert_eq!(result[0].solved_string(), FIXTURE_SOLUTION);
}

#[test]
fn confirm_unique_finds_single_solution() {
    let mut minimized = solved_fixture();
    minimized.minimize_puzzle();
    let result = minimized.confirm_unique();
    assert_eq!(result.len(), 1);
    assert_eq!(result[0].solved_string(), FIXTURE_SOLUTION);
}

#[test]
fn minimize_only_reverts_solved_cells() {
    let solved = solved_fixture();
    let mut minimized = solved.clone();
    minimized.minimize_puzzle();
    assert!(minimized.well_formed());
    let mut removed = 0;
    for i in 0..81 {
        match (solved.cell_at(i), minimized.cell_at(i)) {
            (Cell::Solved(a), Cell::Solved(b)) => {
                assert_eq!(a.value, b.value);
                assert_eq!(a.given, b.given);
            },
            (Cell::Solved(_), Cell::Candidates(cands)) => {
                assert!(cands.iter().all(|&c| c));
                removed += 1;
            },
            (Cell::Candidates(_), _) => panic!("the solved fixture has no open cell"),
        }
    }
    assert!(removed > 0, "a full solution grid is never already minimal");
}

#[test]
fn minimized_grid_is_locally_irreducible() {
    let mut minimized = solved_fixture();
    minimized.minimize_puzzle();
    let text = minimized.solved_string();
    for i in 0..81 {
        if let Cell::Solved(_) = minimized.cell_at(i) {
            // reverting any single remaining cell loses uniqueness
            let mut bytes = text.clone().into_bytes();
            bytes[i] = b'0';
            let weakened = String::from_utf8(bytes).unwrap();
            let mut trial = Puzzle::from_text(&weakened);
            let mut result: Vec<Puzzle> = Vec::new();
            trial.sweep();
            trial.recursive_solve(&mut result, 2);
            assert_eq!(result.len(), 2, "cell {} could still be removed", i);
        }
    }
}

#[test]
fn minimize_keeps_an_already_unsolvable_state_unchanged_in_value() {
    // a grid whose open cell has no candidate: every trial fails, so every
    // solved cell stays exactly as it was
    let mut puzzle = Puzzle::from_text("123456780000000009");
    let text_before = puzzle.solved_string();
    puzzle.minimize_puzzle();
    assert_eq!(puzzle.solved_string(), text_before);
}
