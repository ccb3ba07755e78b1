use wordle_bot::feedback_calculator::feedback_from_string;

// The human feedback encoding: one symbol per position, 'g' = correct (2),
// 'y' = present (1), anything else = absent (0), base-3, most significant
// position first.
#[test]
fn test_feedback_from_string_all_absent() {
    assert_eq!(feedback_from_string(b"xxxxx"), 0);
    assert_eq!(feedback_from_string(b""), 0);
}

#[test]
fn test_feedback_from_string_all_correct() {
    assert_eq!(feedback_from_string(b"ggggg"), 242);
}

#[test]
fn test_feedback_from_string_mixed() {
    assert_eq!(feedback_from_string(b"xyxyx"), 30);
    assert_eq!(feedback_from_string(b"gyxgy"), 196);
    assert_eq!(feedback_from_string(b"yg"), 5);
}
