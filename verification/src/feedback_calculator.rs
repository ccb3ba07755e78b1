//! The feedback engine: comparing a guess against a target word and encoding
//! the per-position outcomes as a single base-3 integer signature.
//!
//! Each letter position receives one of three digits: 2 (correct letter,
//! correct position), 1 (letter present elsewhere in the target, under the
//! no-double-count rule), or 0 (absent). The signature reads the digits
//! most-significant-position first: `signature = sum digit[i] * 3^(n-1-i)`.

use vstd::prelude::*;

verus! {

/// A compact integer encoding of per-position feedback outcomes.
pub type Feedback = u32;

/// `3^n`, the number of distinct signatures for words of length `n`.
pub open spec fn pow3(n: nat) -> nat
    decreases n,
{
    if n == 0 {
        1
    } else {
        3 * pow3((n - 1) as nat)
    }
}

/// Counts the positions `j < k` where `a[j] == c` and `a[j] != b[j]`, that
/// is, occurrences of the letter `c` in `a` at positions where `a` and `b`
/// disagree.
///
/// With `a` the target and `b` the guess this counts the target's available
/// (not correctly guessed) occurrences of `c`; with the roles swapped it
/// counts the guess positions before `k` that compete for those occurrences.
pub open spec fn count_unmatched(a: Seq<u8>, b: Seq<u8>, c: u8, k: int) -> nat
    decreases k,
{
    if k <= 0 {
        0
    } else {
        count_unmatched(a, b, c, k - 1) + if a[k - 1] == c && a[k - 1] != b[k - 1] {
            1nat
        } else {
            0nat
        }
    }
}

/// The feedback digit of position `i`: 2 when the guess letter is correctly
/// placed; otherwise 1 exactly when the target still has an occurrence of the
/// guess letter left for this position, scanning guess positions left to
/// right so that each target occurrence satisfies at most one guess position;
/// otherwise 0.
pub open spec fn feedback_digit(target: Seq<u8>, guess: Seq<u8>, i: int) -> nat {
    if target[i] == guess[i] {
        2
    } else if count_unmatched(target, guess, guess[i], target.len() as int) > count_unmatched(
        guess,
        target,
        guess[i],
        i,
    ) {
        1
    } else {
        0
    }
}

/// The base-3 encoding of the feedback digits of the first `k` positions,
/// most significant position first.
pub open spec fn feedback_prefix(target: Seq<u8>, guess: Seq<u8>, k: int) -> nat
    decreases k,
{
    if k <= 0 {
        0
    } else {
        3 * feedback_prefix(target, guess, k - 1) + feedback_digit(target, guess, k - 1)
    }
}

/// The signature of guessing `guess` against the hidden word `target`.
pub open spec fn feedback_spec(target: Seq<u8>, guess: Seq<u8>) -> nat {
    feedback_prefix(target, guess, target.len() as int)
}

/// `pow3` grows monotonically.
pub proof fn lemma_pow3_increases(m: nat, n: nat)
    requires
        m <= n,
    ensures
        pow3(m) <= pow3(n),
    decreases n,
{
    if m < n {
        lemma_pow3_increases(m, (n - 1) as nat);
    }
}

/// Every signature prefix of `k` digits lies below `3^k`.
pub proof fn lemma_feedback_prefix_bound(target: Seq<u8>, guess: Seq<u8>, k: int)
    requires
        k >= 0,
    ensures
        feedback_prefix(target, guess, k) < pow3(k as nat),
    decreases k,
{
    if k > 0 {
        lemma_feedback_prefix_bound(target, guess, k - 1);
    }
}

/// Guessing the exact target yields the all-correct signature
/// `3^WORD_LENGTH - 1`, whatever the word.
pub proof fn lemma_exact_guess_feedback(w: Seq<u8>)
    ensures
        feedback_spec(w, w) == pow3(w.len()) - 1,
{
    lemma_exact_guess_prefix(w, w.len() as int);
}

/// Every prefix of the signature of a word against itself is all-correct.
proof fn lemma_exact_guess_prefix(w: Seq<u8>, k: int)
    requires
        k <= w.len(),
    ensures
        k >= 0 ==> feedback_prefix(w, w, k) == pow3(k as nat) - 1,
    decreases k,
{
    if k > 0 {
        lemma_exact_guess_prefix(w, k - 1);
        assert(feedback_digit(w, w, k - 1) == 2);
    }
}

/// A guess sharing no letter with the target yields the all-absent
/// signature 0.
pub proof fn lemma_disjoint_feedback(target: Seq<u8>, guess: Seq<u8>)
    requires
        guess.len() == target.len(),
        forall|i: int, j: int|
            0 <= i < target.len() && 0 <= j < guess.len() ==> target[i] != guess[j],
    ensures
        feedback_spec(target, guess) == 0,
{
    lemma_disjoint_prefix(target, guess, target.len() as int);
}

/// Every prefix of the signature of disjoint words is all-absent.
proof fn lemma_disjoint_prefix(target: Seq<u8>, guess: Seq<u8>, k: int)
    requires
        k <= target.len(),
        guess.len() == target.len(),
        forall|i: int, j: int|
            0 <= i < target.len() && 0 <= j < guess.len() ==> target[i] != guess[j],
    ensures
        k >= 0 ==> feedback_prefix(target, guess, k) == 0,
    decreases k,
{
    if k > 0 {
        lemma_disjoint_prefix(target, guess, k - 1);
        lemma_count_absent_letter(target, guess, guess[k - 1], target.len() as int);
        assert(feedback_digit(target, guess, k - 1) == 0);
    }
}

/// A letter that occurs nowhere in `a` has no unmatched occurrences there.
proof fn lemma_count_absent_letter(a: Seq<u8>, b: Seq<u8>, c: u8, k: int)
    requires
        forall|i: int| 0 <= i < a.len() ==> a[i] != c,
        k <= a.len(),
    ensures
        count_unmatched(a, b, c, k) == 0,
    decreases k,
{
    if k > 0 {
        lemma_count_absent_letter(a, b, c, k - 1);
    }
}

/// Counts the positions `j < k` where `a[j] == c` and `a[j] != b[j]`,
/// executably.
fn count_unmatched_exec(a: &[u8], b: &[u8], c: u8, k: usize) -> (r: usize)
    requires
        k <= a@.len(),
        k <= b@.len(),
    ensures
        r == count_unmatched(a@, b@, c, k as int),
{
    let mut count: usize = 0;
    let mut j: usize = 0;
    while j < k
        invariant
            j <= k,
            k <= a@.len(),
            k <= b@.len(),
            count <= j,
            count == count_unmatched(a@, b@, c, j as int),
        decreases k - j,
    {
        if a[j] == c && a[j] != b[j] {
            count = count + 1;
        }
        j = j + 1;
    }
    count
}

/// Computes the signature of `guess` against `target` by the standard
/// two-outcome-pass scoring rule: correctly placed letters first, then
/// present-elsewhere letters under the no-double-count rule, every other
/// position absent.
pub fn calculate_feedback(target: &[u8], guess: &[u8]) -> (r: Feedback)
    requires
        guess@.len() == target@.len(),
        pow3(target@.len()) <= u32::MAX,
    ensures
        r == feedback_spec(target@, guess@),
        r < pow3(target@.len()),
{
    let n = target.len();
    let mut feedback: u32 = 0;
    let mut i: usize = 0;
    while i < n
        invariant
            i <= n,
            n == target@.len(),
            n == guess@.len(),
            pow3(n as nat) <= u32::MAX,
            feedback == feedback_prefix(target@, guess@, i as int),
        decreases n - i,
    {
        proof {
            lemma_feedback_prefix_bound(target@, guess@, i as int);
            lemma_pow3_increases((i + 1) as nat, n as nat);
        }
        let digit: u32 = if target[i] == guess[i] {
            2
        } else {
            let available = count_unmatched_exec(target, guess, guess[i], n);
            let competitors = count_unmatched_exec(guess, target, guess[i], i);
            if available > competitors {
                1
            } else {
                0
            }
        };
        feedback = feedback * 3 + digit;
        i = i + 1;
    }
    proof {
        lemma_feedback_prefix_bound(target@, guess@, n as int);
    }
    feedback
}

/// The byte of the feedback symbol `g`, marking a correctly placed letter.
pub const SYMBOL_CORRECT: u8 = 103;

/// The byte of the feedback symbol `y`, marking a present letter.
pub const SYMBOL_PRESENT: u8 = 121;

/// The digit a human feedback symbol denotes: `g` (green) is correct, `y`
/// (yellow) is present, anything else is absent.
pub open spec fn symbol_value(c: u8) -> nat {
    if c == SYMBOL_CORRECT {
        2
    } else if c == SYMBOL_PRESENT {
        1
    } else {
        0
    }
}

/// The base-3 encoding of the first `k` feedback symbols, most significant
/// position first — the same positional encoding the signature uses.
pub open spec fn symbols_prefix(s: Seq<u8>, k: int) -> nat
    decreases k,
{
    if k <= 0 {
        0
    } else {
        3 * symbols_prefix(s, k - 1) + symbol_value(s[k - 1])
    }
}

/// The signature a human feedback string denotes.
pub open spec fn symbols_spec(s: Seq<u8>) -> nat {
    symbols_prefix(s, s.len() as int)
}

/// Every encoded symbol prefix of `k` symbols lies below `3^k`.
pub proof fn lemma_symbols_prefix_bound(s: Seq<u8>, k: int)
    requires
        k >= 0,
    ensures
        symbols_prefix(s, k) < pow3(k as nat),
    decreases k,
{
    if k > 0 {
        lemma_symbols_prefix_bound(s, k - 1);
    }
}

/// Parses a human feedback string — one symbol per letter position, `g` for
/// correct, `y` for present, any other symbol for absent — into the
/// signature it denotes, so that callers never touch signature internals.
pub fn feedback_from_string(input: &[u8]) -> (r: Feedback)
    requires
        pow3(input@.len()) <= u32::MAX,
    ensures
        r == symbols_spec(input@),
        r < pow3(input@.len()),
{
    let n = input.len();
    let mut feedback: u32 = 0;
    let mut i: usize = 0;
    while i < n
        invariant
            i <= n,
            n == input@.len(),
            pow3(n as nat) <= u32::MAX,
            feedback == symbols_prefix(input@, i as int),
        decreases n - i,
    {
        proof {
            lemma_symbols_prefix_bound(input@, i as int);
            lemma_pow3_increases((i + 1) as nat, n as nat);
        }
        let c = input[i];
        feedback = feedback * 3;
        if c == SYMBOL_CORRECT {
            feedback = feedback + 2;
        } else if c == SYMBOL_PRESENT {
            feedback = feedback + 1;
        }
        i = i + 1;
    }
    proof {
        lemma_symbols_prefix_bound(input@, n as int);
    }
    feedback
}

} // verus!
