use word_search::dictionary::Dictionary;
use word_search::generator::generate;
use word_search::grid_cell_count;
use word_search::partial_puzzle::PartialPuzzle;
use word_search::puzzle_solver::PuzzleSolver;

#[test]
fn cell_count_checks_for_overflow() {
    assert_eq!(grid_cell_count(10, 10), Some(100));
    assert_eq!(grid_cell_count(usize::MAX, 2), None);
}

#[test]
fn dictionary_normalizes_word_list() {
    let data = "cat\ndog\nat\n# a comment\nelephant\nCat\n d o g \n";
    let dictionary = Dictionary::from_text(data, 5);
    // "at" is too short, "elephant" too long, and the case/space variants
    // of cat and dog collapse into one entry each
    assert_eq!(dictionary.len(), 2);
}

#[test]
fn dictionary_without_cap_keeps_long_words() {
    let data = "elephant\ncat\n";
    let dictionary = Dictionary::from_text(data, 0);
    assert_eq!(dictionary.len(), 2);
}

#[test]
fn dictionary_iteration_rotates_from_offset() {
    let data = "cat\ndog\nowl\n";
    let dictionary = Dictionary::from_text(data, 0);
    assert_eq!(dictionary.len(), 3);
    let mut it = dictionary.iter_from(1);
    let mut seen = Vec::new();
    while let Some(word) = it.next() {
        seen.push(word);
    }
    assert_eq!(seen.len(), 3);
    // every word exactly once, relative order preserved after the rotation
    assert_eq!(seen, vec![
        String::from("DOG"),
        String::from("OWL"),
        String::from("CAT"),
    ]);
}

#[test]
fn dictionary_random_iteration_visits_every_word_once() {
    let data = "cat\ndog\nowl\n";
    let dictionary = Dictionary::from_text(data, 0);
    let mut it = dictionary.iter();
    let mut seen = Vec::new();
    while let Some(word) = it.next() {
        seen.push(word);
    }
    assert_eq!(seen.len(), 3);
    for w in ["CAT", "DOG", "OWL"] {
        assert!(seen.contains(&String::from(w)));
    }
}

#[test]
fn insertion_with_fixed_draws_is_deterministic() {
    let mut first = PartialPuzzle::create(5, 1, String::from("AB"));
    let mut second = PartialPuzzle::create(5, 1, String::from("AB"));
    let placed_first = first.try_insert_word_from(String::from("CAT"), 0, 0, 0);
    let placed_second = second.try_insert_word_from(String::from("CAT"), 0, 0, 0);
    assert!(placed_first);
    assert!(placed_second);
    assert!(first.is_complete());
    assert!(second.is_complete());
    assert_eq!(first.get_puzzle_string(), second.get_puzzle_string());
    assert_eq!(first.get_puzzle_string(), "CATAB\n\nCAT");
}

#[test]
fn insertion_reserves_blanks_for_the_message() {
    // the grid has four cells and the message needs three of them, so no
    // three-letter word may ever be committed
    let mut puzzle = PartialPuzzle::create(4, 1, String::from("ABC"));
    assert!(!puzzle.try_insert_word(String::from("CAT")));
    assert_eq!(puzzle.word_count(), 0);
    assert!(!puzzle.is_complete());
}

#[test]
fn insertion_places_word_somewhere_legal() {
    let mut puzzle = PartialPuzzle::create(5, 1, String::from("AB"));
    assert!(puzzle.try_insert_word(String::from("CAT")));
    assert_eq!(puzzle.word_count(), 1);
    assert!(puzzle.is_complete());
    // committing the same word again never grows the word set
    let before = puzzle.word_count();
    puzzle.try_insert_word(String::from("CAT"));
    assert_eq!(puzzle.word_count(), before);
}

#[test]
fn generation_round_trip_decodes_the_message() {
    let data = "tiger\nhorse\nmouse\nzebra\nsnake\neagle\nshark\nwhale\ncamel\npanda\n\
otter\nlemur\nbison\nmoose\ngecko\ndingo\nhyena\nsloth\ncobra\nllama\n\
robin\nheron\nstork\nfinch\nquail\nraven\ncrane\ngoose\nswan\nibis\n\
cat\ndog\nowl\nfox\nbat\nrat\nelk\nhen\nram\nyak\n";
    let dictionary = Dictionary::from_text(data, 5);
    let text = generate(5, 5, String::from("HELLO"), &dictionary, 5000)
        .expect("a 5x5 grid hiding a 5-letter message should generate");
    let solver = PuzzleSolver::from_string(text.clone()).expect("generated text parses");
    let decoded = solver.solve().expect("generated text is uniquely solvable");
    assert_eq!(decoded, "HELLO");
    // exactly width * height - message cells belong to placed words
    let grid_chars: usize = text
        .lines()
        .take_while(|line| !line.is_empty())
        .map(|line| line.chars().count())
        .sum();
    assert_eq!(grid_chars, 25);
    assert_eq!(decoded.chars().count(), 5);
}

#[test]
fn generation_fails_when_dictionary_cannot_fill_the_grid() {
    // one three-letter word can never fill the four blanks the message
    // leaves free, so every attempt gets stuck
    let dictionary = Dictionary::from_text("cat\n", 0);
    assert_eq!(dictionary.len(), 1);
    let result = generate(5, 1, String::from("A"), &dictionary, 50);
    assert!(result.is_none());
}

#[test]
fn generation_handles_message_filling_whole_grid() {
    let dictionary = Dictionary::from_text("cat\n", 0);
    // the message takes every cell: a complete grid needs no words at all
    let text = generate(2, 2, String::from("WXYZ"), &dictionary, 10)
        .expect("an all-message grid needs no placements");
    assert_eq!(text, "WX\nYZ\n\n");
    let solver = PuzzleSolver::from_string(text).expect("generated text parses");
    assert_eq!(solver.solve(), Some(String::from("WXYZ")));
}

#[test]
fn generation_with_no_attempts_allowed_gives_nothing() {
    let dictionary = Dictionary::from_text("cat\ndog\n", 0);
    assert!(generate(5, 5, String::from("HI"), &dictionary, 0).is_none());
}

#[test]
fn generation_keeps_words_from_the_dictionary() {
    let data = "tiger\nhorse\nmouse\nzebra\nsnake\ncat\ndog\nowl\nfox\nbat\n";
    let dictionary = Dictionary::from_text(data, 4);
    if let Some(text) = generate(4, 4, String::from("HI"), &dictionary, 3000) {
        let upper: Vec<String> = vec![
            String::from("CAT"),
            String::from("DOG"),
            String::from("OWL"),
            String::from("FOX"),
            String::from("BAT"),
        ];
        for line in text.lines().skip_while(|l| !l.is_empty()).skip(1) {
            assert!(upper.contains(&line.to_string()), "word {} not from dictionary", line);
        }
    }
}
