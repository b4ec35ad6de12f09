use word_search::puzzle::Puzzle;
use word_search::puzzle_solver::PuzzleSolver;

#[test]
fn parse_simple_grid() {
    let input = String::from("CATAB\nXYZOD\n\nCAT\n");
    let puzzle = Puzzle::from_string(input).expect("well-formed puzzle text");
    assert_eq!(puzzle.width, 5);
    assert_eq!(puzzle.height, 2);
    assert_eq!(puzzle.words.len(), 1);
    assert_eq!(puzzle.words[0], "CAT");
    assert_eq!(puzzle.get(0, 0), Some('C'));
    assert_eq!(puzzle.get(4, 1), Some('D'));
    assert_eq!(puzzle.get(5, 0), None);
    assert_eq!(puzzle.get(0, 2), None);
}

#[test]
fn parse_strips_whitespace_and_comments() {
    let input = String::from("# a comment line\n C A T\n# another\nDOG\n\nCAT\nCAT\nDOG\n");
    let puzzle = Puzzle::from_string(input).expect("well-formed puzzle text");
    assert_eq!(puzzle.width, 3);
    assert_eq!(puzzle.height, 2);
    // duplicate word lines are kept once
    assert_eq!(puzzle.words.len(), 2);
    assert!(puzzle.words.contains(&String::from("CAT")));
    assert!(puzzle.words.contains(&String::from("DOG")));
}

#[test]
fn parse_rejects_empty_input() {
    assert!(Puzzle::from_string(String::new()).is_none());
    assert!(Puzzle::from_string(String::from("\n\nCAT\n")).is_none());
}

#[test]
fn parse_rejects_ragged_rows() {
    let input = String::from("CAT\nXY\n\nCAT\n");
    assert!(Puzzle::from_string(input).is_none());
    assert!(PuzzleSolver::from_string(String::from("AB\nABC\n\n")).is_none());
}

#[test]
fn solver_decodes_single_word_grid() {
    let input = String::from("CATAB\nXYZOD\n\nCAT\n");
    let solver = PuzzleSolver::from_string(input).expect("well-formed puzzle text");
    let decoded = solver.solve().expect("uniquely solvable");
    assert_eq!(decoded, "ABXYZOD");
}

#[test]
fn solver_output_length_accounts_for_every_cell() {
    // ten cells, one three-letter word: seven cells belong to the message
    let input = String::from("CATAB\nXYZOD\n\nCAT\n");
    let solver = PuzzleSolver::from_string(input).expect("well-formed puzzle text");
    let decoded = solver.solve().expect("uniquely solvable");
    assert_eq!(decoded.chars().count(), 5 * 2 - 3);
}

#[test]
fn solver_rejects_ambiguous_grid() {
    // CAT reads both left-to-right and downward from the same corner, and
    // neither reading overlaps a cell that would disambiguate them
    let input = String::from("CAT\nAXX\nTXX\n\nCAT\n");
    let solver = PuzzleSolver::from_string(input).expect("well-formed puzzle text");
    assert!(solver.solve().is_none());
}

#[test]
fn solver_rejects_two_copies_of_a_word() {
    let input = String::from("CATQQ\nQQQQQ\nCATQQ\n\nCAT\n");
    let solver = PuzzleSolver::from_string(input).expect("well-formed puzzle text");
    assert!(solver.solve().is_none());
}

#[test]
fn solver_resolves_two_crossing_words() {
    // CAT reads right from (0,0); SAT reads down from (3,0)
    let input = String::from("CATS\nXXXA\nXXXT\n\nCAT\nSAT\n");
    let solver = PuzzleSolver::from_string(input).expect("well-formed puzzle text");
    assert_eq!(solver.solve(), Some(String::from("XXXXXX")));
}

#[test]
fn solver_resolves_nested_words_in_order() {
    // CAT has one reading; once CATS claims the rest nothing is left over
    let input = String::from("CATS\n\nCAT\nCATS\n");
    let solver = PuzzleSolver::from_string(input).expect("well-formed puzzle text");
    assert_eq!(solver.solve(), Some(String::new()));
}

#[test]
fn solver_leaves_fully_shadowed_word_pending() {
    // both readings of CAT lie wholly inside CATCAT's cells, so once
    // CATCAT resolves they are stale and CAT can never resolve
    let input = String::from("CATCAT\n\nCATCAT\nCAT\n");
    let solver = PuzzleSolver::from_string(input).expect("well-formed puzzle text");
    assert!(solver.solve().is_none());
}

#[test]
fn solver_rejects_missing_word() {
    let input = String::from("CATAB\nXYZOD\n\nDOG\n");
    let solver = PuzzleSolver::from_string(input).expect("well-formed puzzle text");
    assert!(solver.solve().is_none());
}

#[test]
fn solver_is_repeatable() {
    let text = String::from("CATAB\nXYZOD\n\nCAT\n");
    let first = PuzzleSolver::from_string(text.clone()).unwrap().solve();
    let second = PuzzleSolver::from_string(text).unwrap().solve();
    assert_eq!(first, second);
    assert_eq!(first, Some(String::from("ABXYZOD")));
}

#[test]
fn solver_empty_word_list_decodes_whole_grid() {
    let input = String::from("AB\nCD\n\n");
    let solver = PuzzleSolver::from_string(input).expect("well-formed puzzle text");
    assert_eq!(solver.solve(), Some(String::from("ABCD")));
}
