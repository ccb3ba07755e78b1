use wordle_bot::WordleError;
use wordle_bot::wordle_bot::WordleBot;
use wordle_bot::wordle_dictionary::WordleDictionary;

fn to_words(list: &[&[u8]]) -> Vec<Vec<u8>> {
    list.iter().map(|w| w.to_vec()).collect()
}

fn two_word_bot() -> WordleBot {
    let all = to_words(&[b"abcde", b"edcba"]);
    let solutions = to_words(&[b"abcde", b"edcba"]);
    WordleBot::new(WordleDictionary::new(all, solutions).unwrap()).unwrap()
}

// End-to-end: with a 2-word universe, applying the feedback of the true
// hidden word leaves exactly that word as the solution.
#[test]
fn test_end_to_end_two_words() {
    let mut bot = two_word_bot();
    assert_eq!(bot.get_solution(), None);
    let hidden = 1; // "edcba"
    let guess = bot.get_guess();
    let feedback = bot.get_dictionary().get_feedback(hidden, guess);
    bot.give_feedback(guess, feedback).unwrap();
    assert_eq!(bot.get_solution(), Some(hidden));
    let word = bot.get_dictionary().solution_to_word(hidden);
    assert_eq!(bot.get_dictionary().word_string(word), &b"edcba".to_vec());
}

// Feedback then reset restores the full candidate set: the solver behaves
// exactly like a freshly built one.
#[test]
fn test_reset_restores_candidates() {
    let mut bot = two_word_bot();
    let fresh_guess = bot.get_guess();
    let guess = bot.get_guess();
    let feedback = bot.get_dictionary().get_feedback(0, guess);
    bot.give_feedback(guess, feedback).unwrap();
    assert_eq!(bot.get_solution(), Some(0));
    bot.reset();
    assert_eq!(bot.get_solution(), None);
    assert_eq!(bot.get_guess(), fresh_guess);
}

// Applying feedback never grows the candidate set: repeating consistent
// feedback keeps the narrowed set narrowed.
#[test]
fn test_feedback_monotonic() {
    let mut bot = two_word_bot();
    let guess = bot.get_guess();
    let feedback = bot.get_dictionary().get_feedback(0, guess);
    bot.give_feedback(guess, feedback).unwrap();
    assert_eq!(bot.get_solution(), Some(0));
    bot.give_feedback(guess, feedback).unwrap();
    assert_eq!(bot.get_solution(), Some(0));
}

// Feedback that rules out every candidate is reported, not papered over.
#[test]
fn test_contradictory_feedback() {
    let mut bot = two_word_bot();
    let guess = bot.get_guess();
    // No candidate yields signature 7 against this guess: the signatures
    // are 242 (the guess itself) and 121 (the reversal).
    assert_eq!(
        bot.give_feedback(guess, 7).unwrap_err(),
        WordleError::ContradictoryFeedback
    );
    assert_eq!(bot.get_solution(), None);
    // A fresh round recovers: the solver behaves like a freshly built one.
    bot.reset();
    assert_eq!(bot.get_guess(), two_word_bot().get_guess());
}

// A guess is requested from an empty universe only at construction, where
// it is reported as an exhaustion error.
#[test]
fn test_empty_universe() {
    let dict = WordleDictionary::new(Vec::new(), Vec::new()).unwrap();
    assert_eq!(WordleBot::new(dict).unwrap_err(), WordleError::EmptyUniverse);
}

// Two solvers built from identical inputs and fed identical feedback select
// identical guesses; the crafted dictionary makes every guess score equal,
// so the tie-break to the lowest word index is exercised.
#[test]
fn test_deterministic_tie_break() {
    let build = || {
        let all = to_words(&[b"aaaaa", b"bbbbb"]);
        let solutions = to_words(&[b"aaaaa", b"bbbbb"]);
        WordleBot::new(WordleDictionary::new(all, solutions).unwrap()).unwrap()
    };
    let mut bot1 = build();
    let mut bot2 = build();
    // Both words partition the two candidates identically (score 1 each):
    // the tie breaks to word 0.
    assert_eq!(bot1.get_guess(), 0);
    assert_eq!(bot2.get_guess(), 0);
    let feedback = bot1.get_dictionary().get_feedback(1, 0);
    bot1.give_feedback(0, feedback).unwrap();
    bot2.give_feedback(0, feedback).unwrap();
    assert_eq!(bot1.get_guess(), bot2.get_guess());
    assert_eq!(bot1.get_solution(), Some(1));
    assert_eq!(bot2.get_solution(), Some(1));
}

// The cached opening guess is used at the start of every round without
// rescoring, and scoring resumes once feedback arrives.
#[test]
fn test_opening_guess_cached() {
    let all = to_words(&[b"abcde", b"edcba", b"fghij"]);
    let solutions = to_words(&[b"abcde", b"edcba", b"fghij"]);
    let mut bot = WordleBot::new(WordleDictionary::new(all, solutions).unwrap()).unwrap();
    let opening = bot.get_guess();
    let feedback = bot.get_dictionary().get_feedback(2, opening);
    bot.give_feedback(opening, feedback).unwrap();
    assert_eq!(bot.get_solution(), Some(2));
    bot.reset();
    assert_eq!(bot.get_guess(), opening);
}
