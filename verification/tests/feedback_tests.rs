use wordle_bot::feedback_calculator::calculate_feedback;

#[test]
fn test_all_wrong() {
    assert_eq!(calculate_feedback(b"soare", b"clint"), 0);
    assert_eq!(calculate_feedback(b"alpha", b"every"), 0);
    assert_eq!(calculate_feedback(b"aaaaa", b"bbbbb"), 0);
}

// Test cases where some characters are in the correct position
#[test]
fn test_some_correct() {
    assert_eq!(calculate_feedback(b"hello", b"zebra"), 54);
    assert_eq!(calculate_feedback(b"abxyz", b"abcde"), 216);
}

// Test cases where all characters are correct
#[test]
fn test_all_correct() {
    assert_eq!(calculate_feedback(b"abcde", b"abcde"), 242);
    assert_eq!(calculate_feedback(b"aaaaa", b"aaaaa"), 242);
}

// Test cases where some characters are in incorrect positions
#[test]
fn test_some_incorrect() {
    assert_eq!(calculate_feedback(b"abcde", b"bcdea"), 121);
    assert_eq!(calculate_feedback(b"hello", b"soare"), 28);
}

// Test cases where there are a mix of letters correctly and incorrectly placed
#[test]
fn test_complex() {
    assert_eq!(calculate_feedback(b"abcde", b"cbayz"), 144);
    assert_eq!(calculate_feedback(b"abcde", b"xyzdd"), 6);
    assert_eq!(calculate_feedback(b"yyddd", b"dddxx"), 126);
}

// Guessing the exact target always yields the all-correct signature, here
// for a shorter word length as well: 3^3 - 1.
#[test]
fn test_exact_guess_short_word() {
    assert_eq!(calculate_feedback(b"abc", b"abc"), 26);
    assert_eq!(calculate_feedback(b"zzz", b"zzz"), 26);
}

// Words with entirely disjoint letter sets always yield signature 0.
#[test]
fn test_disjoint_letters() {
    assert_eq!(calculate_feedback(b"abcd", b"wxyz"), 0);
    assert_eq!(calculate_feedback(b"q", b"z"), 0);
}
