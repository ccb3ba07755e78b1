use wordle_bot::WordleError;
use wordle_bot::feedback_calculator::calculate_feedback;
use wordle_bot::wordle_dictionary::WordleDictionary;

fn to_words(list: &[&[u8]]) -> Vec<Vec<u8>> {
    list.iter().map(|w| w.to_vec()).collect()
}

#[test]
fn test_dictionary_consolidation() {
    // Solutions come first in the consolidated universe; guessable words
    // that are solutions are not repeated.
    let all = to_words(&[b"xyzzy", b"abcde", b"edcba"]);
    let solutions = to_words(&[b"abcde", b"edcba"]);
    let dict = WordleDictionary::new(all, solutions).unwrap();
    assert_eq!(dict.get_n_solutions(), 2);
    assert_eq!(dict.get_n_words(), 3);
    assert_eq!(dict.get_word_length(), 5);
    assert_eq!(dict.word_string(0), &b"abcde".to_vec());
    assert_eq!(dict.word_string(1), &b"edcba".to_vec());
    assert_eq!(dict.word_string(2), &b"xyzzy".to_vec());
    assert_eq!(dict.solution_string(1), &b"edcba".to_vec());
    assert_eq!(dict.solution_to_word(0), 0);
    assert_eq!(dict.solution_to_word(1), 1);
}

#[test]
fn test_dictionary_feedback_table() {
    let all = to_words(&[b"hello", b"zebra", b"soare"]);
    let solutions = to_words(&[b"hello"]);
    let dict = WordleDictionary::new(all, solutions).unwrap();
    // The table holds exactly what the feedback engine computes.
    assert_eq!(dict.get_feedback(0, 0), calculate_feedback(b"hello", b"hello"));
    assert_eq!(dict.get_feedback(0, 1), calculate_feedback(b"hello", b"zebra"));
    assert_eq!(dict.get_feedback(0, 1), 54);
    assert_eq!(dict.get_feedback(0, 2), 28);
    assert_eq!(dict.get_n_feedbacks(), 243);
}

#[test]
fn test_dictionary_length_mismatch() {
    let all = to_words(&[b"abcde", b"abc"]);
    let solutions = to_words(&[b"abcde"]);
    assert_eq!(
        WordleDictionary::new(all, solutions).unwrap_err(),
        WordleError::LengthMismatch
    );
}

#[test]
fn test_dictionary_signature_overflow() {
    // 3^21 does not fit the 32-bit signature type.
    let long = vec![b'a'; 21];
    let all = vec![long.clone()];
    let solutions = vec![long];
    assert_eq!(
        WordleDictionary::new(all, solutions).unwrap_err(),
        WordleError::SignatureOverflow
    );
}

#[test]
fn test_dictionary_solution_not_in_universe() {
    let all = to_words(&[b"abcde"]);
    let solutions = to_words(&[b"edcba"]);
    assert_eq!(
        WordleDictionary::new(all, solutions).unwrap_err(),
        WordleError::SolutionNotInUniverse
    );
}

// The word length is configuration taken from the lists, not a fixed
// constant: a two-letter universe works end to end.
#[test]
fn test_dictionary_short_words() {
    let all = to_words(&[b"ab", b"ba"]);
    let solutions = to_words(&[b"ab"]);
    let dict = WordleDictionary::new(all, solutions).unwrap();
    assert_eq!(dict.get_word_length(), 2);
    assert_eq!(dict.get_n_feedbacks(), 9);
    assert_eq!(dict.get_feedback(0, 0), 8); // all-correct: 3^2 - 1
    assert_eq!(dict.get_feedback(0, 1), 4); // both letters present, misplaced
}

#[test]
fn test_dictionary_empty() {
    let dict = WordleDictionary::new(Vec::new(), Vec::new()).unwrap();
    assert_eq!(dict.get_n_words(), 0);
    assert_eq!(dict.get_n_solutions(), 0);
}
