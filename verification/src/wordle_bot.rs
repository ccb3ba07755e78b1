//! The guess solver: owns a dictionary, a mutable set of remaining candidate
//! solutions, and a cached opening guess, and selects the guess that
//! partitions the remaining candidates into the smallest signature classes.
//!
//! A guess is scored by summing, over every signature class except the
//! all-correct one, the square of the class size (a monotonically increasing,
//! strictly convex penalty); the guess with the minimum score wins, ties
//! broken by the lowest word index.

use vstd::prelude::*;

use crate::WordleError;
use crate::feedback_calculator::Feedback;
use crate::feedback_calculator::pow3;
use crate::wordle_dictionary::WordleDictionary;

verus! {

/// The full candidate set: every solution index in order.
pub open spec fn init_remaining(n: nat) -> Seq<usize> {
    Seq::new(n, |i: int| i as usize)
}

/// The number of candidates among the first `k` of `rem` whose signature
/// against the guess word `guess` is `f`.
pub open spec fn class_count_upto(
    dict: WordleDictionary,
    rem: Seq<usize>,
    guess: int,
    f: nat,
    k: int,
) -> nat
    decreases k,
{
    if k <= 0 {
        0
    } else {
        class_count_upto(dict, rem, guess, f, k - 1) + if dict.table_feedback(
            rem[k - 1] as int,
            guess,
        ) == f {
            1nat
        } else {
            0nat
        }
    }
}

/// The size of signature class `f` when the candidates `rem` are partitioned
/// by their signature against the guess word `guess`.
pub open spec fn class_count(dict: WordleDictionary, rem: Seq<usize>, guess: int, f: nat) -> nat {
    class_count_upto(dict, rem, guess, f, rem.len() as int)
}

/// The summed squared sizes of the signature classes `f < m`.
pub open spec fn score_upto(dict: WordleDictionary, rem: Seq<usize>, guess: int, m: int) -> nat
    decreases m,
{
    if m <= 0 {
        0
    } else {
        score_upto(dict, rem, guess, m - 1) + class_count(dict, rem, guess, (m - 1) as nat)
            * class_count(dict, rem, guess, (m - 1) as nat)
    }
}

/// The score of the guess word `guess` against the candidates `rem`: the sum
/// of the squared class sizes over every signature class except the
/// all-correct class `3^word_length - 1`. Lower is better; the all-correct
/// class is excluded because a guess that equals a candidate resolves that
/// branch in one step and must not be penalized.
pub open spec fn score_spec(dict: WordleDictionary, rem: Seq<usize>, guess: int) -> nat {
    score_upto(dict, rem, guess, pow3(dict.word_length_spec()) - 1)
}

/// The guess among the first `m` words with the minimum score, ties broken by
/// the lowest word index.
pub open spec fn best_guess_upto(dict: WordleDictionary, rem: Seq<usize>, m: int) -> int
    decreases m,
{
    if m <= 1 {
        0
    } else {
        let prev = best_guess_upto(dict, rem, m - 1);
        if score_spec(dict, rem, m - 1) < score_spec(dict, rem, prev) {
            m - 1
        } else {
            prev
        }
    }
}

/// The guess of the whole universe with the minimum score, ties broken by the
/// lowest word index.
pub open spec fn best_guess_spec(dict: WordleDictionary, rem: Seq<usize>) -> int {
    best_guess_upto(dict, rem, dict.n_words_spec() as int)
}

/// The opening guess: what guess selection returns on the full candidate set
/// before any feedback.
pub open spec fn opening_guess_spec(dict: WordleDictionary) -> int {
    if dict.n_solutions_spec() == 1 {
        0
    } else {
        best_guess_spec(dict, init_remaining(dict.n_solutions_spec()))
    }
}

/// The candidates of `rem` whose signature against the guess word `guess` is
/// exactly `fb`, in their original order.
pub open spec fn filtered_candidates(
    dict: WordleDictionary,
    rem: Seq<usize>,
    guess: int,
    fb: nat,
) -> Seq<usize>
    decreases rem.len(),
{
    if rem.len() == 0 {
        Seq::empty()
    } else {
        let rest = filtered_candidates(dict, rem.drop_last(), guess, fb);
        if dict.table_feedback(rem.last() as int, guess) == fb {
            rest.push(rem.last())
        } else {
            rest
        }
    }
}

/// Applying feedback never grows the candidate set: the filtered candidates
/// are at most as many as the candidates filtered.
pub proof fn lemma_apply_feedback_monotonic(
    dict: WordleDictionary,
    rem: Seq<usize>,
    guess: int,
    fb: nat,
)
    ensures
        filtered_candidates(dict, rem, guess, fb).len() <= rem.len(),
    decreases rem.len(),
{
    if rem.len() > 0 {
        lemma_apply_feedback_monotonic(dict, rem.drop_last(), guess, fb);
    }
}

/// Every filtered candidate is one of the candidates filtered.
pub proof fn lemma_filtered_candidates_subset(
    dict: WordleDictionary,
    rem: Seq<usize>,
    guess: int,
    fb: nat,
)
    ensures
        forall|i: int|
            0 <= i < filtered_candidates(dict, rem, guess, fb).len() ==> rem.contains(
                #[trigger] filtered_candidates(dict, rem, guess, fb)[i],
            ),
    decreases rem.len(),
{
    if rem.len() > 0 {
        lemma_filtered_candidates_subset(dict, rem.drop_last(), guess, fb);
        assert forall|i: int|
            0 <= i < filtered_candidates(dict, rem, guess, fb).len() implies rem.contains(
            #[trigger] filtered_candidates(dict, rem, guess, fb)[i],
        ) by {
            let fc = filtered_candidates(dict, rem, guess, fb);
            let rest = filtered_candidates(dict, rem.drop_last(), guess, fb);
            if i < rest.len() {
                assert(rem.drop_last().contains(rest[i]));
                let j = choose|j: int| 0 <= j < rem.drop_last().len() && rem.drop_last()[j]
                    == rest[i];
                assert(rem[j] == fc[i]);
            } else {
                assert(fc[i] == rem.last());
                assert(rem[rem.len() - 1] == rem.last());
            }
        }
    }
}

/// A class count over the first `k` candidates is at most `k`.
proof fn lemma_class_count_upto_bound(
    dict: WordleDictionary,
    rem: Seq<usize>,
    guess: int,
    f: nat,
    k: int,
)
    ensures
        class_count_upto(dict, rem, guess, f, k) <= if k <= 0 {
            0
        } else {
            k
        },
    decreases k,
{
    if k > 0 {
        lemma_class_count_upto_bound(dict, rem, guess, f, k - 1);
    }
}

/// The sum of the first `m` class sizes of a histogram.
pub open spec fn class_sum_upto(cs: Seq<u32>, m: int) -> nat
    decreases m,
{
    if m <= 0 {
        0
    } else {
        class_sum_upto(cs, m - 1) + cs[m - 1] as nat
    }
}

/// Incrementing one entry of a histogram raises every sum that covers the
/// entry by one and leaves every other sum unchanged.
proof fn lemma_class_sum_update(cs: Seq<u32>, cs2: Seq<u32>, v: int, new_val: u32, m: int)
    requires
        0 <= v < cs.len(),
        m <= cs.len(),
        new_val == cs[v] + 1,
        cs2 == cs.update(v, new_val),
    ensures
        class_sum_upto(cs2, m) == class_sum_upto(cs, m) + if v < m {
            1int
        } else {
            0int
        },
    decreases m,
{
    if m > 0 {
        lemma_class_sum_update(cs, cs2, v, new_val, m - 1);
    }
}

/// A histogram's partial sums grow with the number of entries covered.
proof fn lemma_class_sum_increases(cs: Seq<u32>, a: int, b: int)
    requires
        a <= b,
    ensures
        class_sum_upto(cs, a) <= class_sum_upto(cs, b),
    decreases b - a,
{
    if a < b {
        lemma_class_sum_increases(cs, a, b - 1);
    }
}

/// Computes the score of the guess word `guess` against the candidates
/// `remaining`: it partitions the candidates into signature classes and sums
/// the squared class sizes, leaving out the all-correct class.
fn score(dict: &WordleDictionary, remaining: &Vec<usize>, guess: usize) -> (r: u64)
    requires
        dict.wf(),
        guess < dict.n_words_spec(),
        forall|i: int|
            0 <= i < remaining@.len() ==> (#[trigger] remaining@[i]) < dict.n_solutions_spec(),
        remaining@.len() <= dict.n_solutions_spec(),
    ensures
        r == score_spec(*dict, remaining@, guess as int),
{
    proof {
        dict.lemma_wf_properties();
    }
    let n_feedbacks = dict.get_n_feedbacks();
    let nf: usize = n_feedbacks as usize;

    // One class per possible signature, each initially empty.
    let mut class_sizes: Vec<u32> = Vec::new();
    while class_sizes.len() < nf
        invariant
            class_sizes@.len() <= nf,
            forall|f: int| 0 <= f < class_sizes@.len() ==> class_sizes@[f] == 0,
        decreases nf - class_sizes@.len(),
    {
        class_sizes.push(0);
    }
    proof {
        lemma_class_sum_zero(class_sizes@, nf as int);
        assert forall|f: int| 0 <= f < nf implies class_sizes@[f] == class_count_upto(
            *dict,
            remaining@,
            guess as int,
            f as nat,
            0,
        ) by {}
    }

    // Partition the candidates into classes by their signature.
    let n_rem = remaining.len();
    let mut i: usize = 0;
    while i < n_rem
        invariant
            i <= n_rem,
            n_rem == remaining@.len(),
            dict.wf(),
            guess < dict.n_words_spec(),
            forall|j: int|
                0 <= j < remaining@.len() ==> (#[trigger] remaining@[j])
                    < dict.n_solutions_spec(),
            remaining@.len() <= dict.n_solutions_spec(),
            dict.n_solutions_spec() <= u32::MAX,
            nf == pow3(dict.word_length_spec()),
            class_sizes@.len() == nf,
            forall|f: int|
                0 <= f < nf ==> class_sizes@[f] == class_count_upto(
                    *dict,
                    remaining@,
                    guess as int,
                    f as nat,
                    i as int,
                ),
            class_sum_upto(class_sizes@, nf as int) == i,
        decreases n_rem - i,
    {
        let solution = remaining[i];
        let fb = dict.get_feedback(solution, guess);
        let fb_idx: usize = fb as usize;
        proof {
            lemma_class_count_upto_bound(
                *dict,
                remaining@,
                guess as int,
                fb_idx as nat,
                i as int,
            );
        }
        let c = class_sizes[fb_idx];
        let ghost before = class_sizes@;
        class_sizes[fb_idx] = c + 1;
        proof {
            lemma_class_sum_update(before, class_sizes@, fb_idx as int, (c + 1) as u32, nf as int);
            assert forall|f: int| 0 <= f < nf implies class_sizes@[f] == class_count_upto(
                *dict,
                remaining@,
                guess as int,
                f as nat,
                i + 1,
            ) by {}
        }
        i = i + 1;
    }

    // Sum the squared class sizes, leaving out the all-correct class.
    proof {
        crate::feedback_calculator::lemma_pow3_increases(0, dict.word_length_spec());
    }
    let mut total: u64 = 0;
    let mut f: usize = 0;
    while f < nf - 1
        invariant
            nf >= 1,
            f <= nf - 1,
            class_sizes@.len() == nf,
            class_sum_upto(class_sizes@, nf as int) == remaining@.len(),
            remaining@.len() <= u32::MAX,
            total == score_upto(*dict, remaining@, guess as int, f as int),
            total <= class_sum_upto(class_sizes@, f as int) * class_sum_upto(
                class_sizes@,
                f as int,
            ),
            forall|f2: int|
                0 <= f2 < nf ==> class_sizes@[f2] == class_count(
                    *dict,
                    remaining@,
                    guess as int,
                    f2 as nat,
                ),
        decreases nf - 1 - f,
    {
        let c = class_sizes[f];
        proof {
            let s_f = class_sum_upto(class_sizes@, f as int);
            let s_f1 = class_sum_upto(class_sizes@, f + 1);
            assert(s_f1 == s_f + c);
            lemma_class_sum_increases(class_sizes@, f + 1, nf as int);
            assert(total + c * c <= s_f1 * s_f1) by (nonlinear_arith)
                requires
                    total <= s_f * s_f,
                    s_f1 == s_f + c,
                    c >= 0,
                    s_f >= 0,
            ;
            assert(s_f1 * s_f1 <= (u32::MAX as int) * (u32::MAX as int)) by (nonlinear_arith)
                requires
                    0 <= s_f1 <= u32::MAX as int,
            ;
        }
        total = total + (c as u64) * (c as u64);
        f = f + 1;
    }
    total
}

/// The minimizing guess has the minimum score among the first `m` words, and
/// every word before it scores strictly worse.
proof fn lemma_best_guess_upto_minimal(dict: WordleDictionary, rem: Seq<usize>, m: int)
    requires
        m >= 1,
    ensures
        0 <= best_guess_upto(dict, rem, m) < m,
        forall|g: int|
            0 <= g < m ==> score_spec(dict, rem, best_guess_upto(dict, rem, m)) <= #[trigger] score_spec(
                dict,
                rem,
                g,
            ),
        forall|g: int|
            0 <= g < best_guess_upto(dict, rem, m) ==> #[trigger] score_spec(dict, rem, g)
                > score_spec(dict, rem, best_guess_upto(dict, rem, m)),
    decreases m,
{
    if m > 1 {
        lemma_best_guess_upto_minimal(dict, rem, m - 1);
    }
}

/// Guess selection picks the guess with the minimum score, ties broken by
/// the lowest word index.
pub proof fn lemma_best_guess_minimal(dict: WordleDictionary, rem: Seq<usize>)
    requires
        dict.n_words_spec() >= 1,
    ensures
        0 <= best_guess_spec(dict, rem) < dict.n_words_spec(),
        forall|g: int|
            0 <= g < dict.n_words_spec() ==> score_spec(dict, rem, best_guess_spec(dict, rem))
                <= #[trigger] score_spec(dict, rem, g),
        forall|g: int|
            0 <= g < best_guess_spec(dict, rem) ==> #[trigger] score_spec(dict, rem, g)
                > score_spec(dict, rem, best_guess_spec(dict, rem)),
{
    lemma_best_guess_upto_minimal(dict, rem, dict.n_words_spec() as int);
}

/// Scores every word of the universe and returns the one with the minimum
/// score, ties broken by the lowest word index.
fn best_guess(dict: &WordleDictionary, remaining: &Vec<usize>) -> (r: usize)
    requires
        dict.wf(),
        dict.n_words_spec() >= 1,
        forall|i: int|
            0 <= i < remaining@.len() ==> (#[trigger] remaining@[i]) < dict.n_solutions_spec(),
        remaining@.len() <= dict.n_solutions_spec(),
    ensures
        r == best_guess_spec(*dict, remaining@),
        r < dict.n_words_spec(),
{
    let n_words = dict.get_n_words();
    let mut best: usize = 0;
    let mut best_score = score(dict, remaining, 0);
    let mut g: usize = 1;
    while g < n_words
        invariant
            1 <= g <= n_words,
            n_words == dict.n_words_spec(),
            dict.wf(),
            forall|i: int|
                0 <= i < remaining@.len() ==> (#[trigger] remaining@[i])
                    < dict.n_solutions_spec(),
            remaining@.len() <= dict.n_solutions_spec(),
            best < g,
            best == best_guess_upto(*dict, remaining@, g as int),
            best_score == score_spec(*dict, remaining@, best as int),
        decreases n_words - g,
    {
        let s = score(dict, remaining, g);
        if s < best_score {
            best = g;
            best_score = s;
        }
        g = g + 1;
    }
    best
}

/// A histogram of zeroes sums to zero.
proof fn lemma_class_sum_zero(cs: Seq<u32>, m: int)
    requires
        m <= cs.len(),
        forall|f: int| 0 <= f < cs.len() ==> cs[f] == 0,
    ensures
        class_sum_upto(cs, m) == 0,
    decreases m,
{
    if m > 0 {
        lemma_class_sum_zero(cs, m - 1);
    }
}

/// Builds the vector holding every solution index in order.
fn full_candidate_set(n_solutions: usize) -> (r: Vec<usize>)
    ensures
        r@ == init_remaining(n_solutions as nat),
{
    let mut remaining: Vec<usize> = Vec::new();
    let mut i: usize = 0;
    while i < n_solutions
        invariant
            i <= n_solutions,
            remaining@ =~= init_remaining(i as nat),
        decreases n_solutions - i,
    {
        remaining.push(i);
        i = i + 1;
    }
    proof {
        assert(remaining@ =~= init_remaining(n_solutions as nat));
    }
    remaining
}

/// The guess solver: a dictionary, the remaining candidate solutions, and
/// the cached opening guess.
#[derive(Debug)]
pub struct WordleBot {
    dictionary: WordleDictionary,
    remaining_set: Vec<usize>,
    first_guess: usize,
    is_first_guess: bool,
}

impl WordleBot {
    /// The dictionary the solver was built from.
    pub closed spec fn dictionary_spec(&self) -> WordleDictionary {
        self.dictionary
    }

    /// The remaining candidate solution indices, in order.
    pub closed spec fn remaining_spec(&self) -> Seq<usize> {
        self.remaining_set@
    }

    /// Whether the solver is awaiting the first guess of a round.
    pub closed spec fn is_first_spec(&self) -> bool {
        self.is_first_guess
    }

    /// The cached opening guess.
    pub closed spec fn first_guess_spec(&self) -> int {
        self.first_guess as int
    }

    /// Well-formedness: the dictionary is well-formed and nonempty, every
    /// remaining candidate is a solution index, the candidates are no more
    /// numerous than the solutions, and the cached opening guess is what
    /// guess selection returns on the full candidate set.
    pub closed spec fn wf(&self) -> bool {
        &&& self.dictionary.wf()
        &&& self.dictionary.n_words_spec() >= 1
        &&& forall|i: int|
            0 <= i < self.remaining_set@.len() ==> (#[trigger] self.remaining_set@[i])
                < self.dictionary.n_solutions_spec()
        &&& self.remaining_set@.len() <= self.dictionary.n_solutions_spec()
        &&& self.first_guess < self.dictionary.n_words_spec()
        &&& self.first_guess as int == opening_guess_spec(self.dictionary)
    }

    /// What guess selection returns in the solver's current state: the sole
    /// remaining candidate when one is left, else the cached opening guess at
    /// the start of a round, else the minimum-score word of the universe.
    pub open spec fn select_spec(&self) -> int {
        if self.remaining_spec().len() == 1 {
            self.remaining_spec()[0] as int
        } else if self.is_first_spec() {
            self.first_guess_spec()
        } else {
            best_guess_spec(self.dictionary_spec(), self.remaining_spec())
        }
    }

    /// Builds a solver over a dictionary: the candidate set starts as the
    /// full solution set, the opening guess is scored once and cached, and
    /// the round awaits its first guess. Fails when the word universe is
    /// empty, the one exhaustion condition a guess request cannot survive.
    pub fn new(dictionary: WordleDictionary) -> (r: Result<WordleBot, WordleError>)
        requires
            dictionary.wf(),
        ensures
            match r {
                Ok(bot) => {
                    &&& dictionary.n_words_spec() >= 1
                    &&& bot.wf()
                    &&& bot.dictionary_spec() == dictionary
                    &&& bot.remaining_spec() == init_remaining(dictionary.n_solutions_spec())
                    &&& bot.is_first_spec()
                    &&& bot.first_guess_spec() == opening_guess_spec(dictionary)
                },
                Err(e) => {
                    &&& e == WordleError::EmptyUniverse
                    &&& dictionary.n_words_spec() == 0
                },
            },
    {
        if dictionary.get_n_words() == 0 {
            return Err(WordleError::EmptyUniverse);
        }
        proof {
            dictionary.lemma_wf_properties();
        }
        let n_solutions = dictionary.get_n_solutions();
        let remaining_set = full_candidate_set(n_solutions);
        let first_guess: usize = if n_solutions == 1 {
            0
        } else {
            best_guess(&dictionary, &remaining_set)
        };
        Ok(
            WordleBot {
                dictionary,
                remaining_set,
                first_guess,
                is_first_guess: true,
            },
        )
    }

    /// Records the feedback received for a guess: the round is no longer at
    /// its first guess, and the remaining candidates are filtered down to
    /// exactly those whose signature against the guess equals the feedback.
    /// Reports contradictory feedback — feedback that rules out every
    /// remaining candidate — to the caller rather than selecting a word
    /// silently; `reset` starts a fresh round.
    pub fn give_feedback(&mut self, word: usize, feedback: Feedback) -> (r: Result<
        (),
        WordleError,
    >)
        requires
            old(self).wf(),
            word < old(self).dictionary_spec().n_words_spec(),
        ensures
            final(self).wf(),
            final(self).dictionary_spec() == old(self).dictionary_spec(),
            final(self).first_guess_spec() == old(self).first_guess_spec(),
            !final(self).is_first_spec(),
            final(self).remaining_spec() == filtered_candidates(
                old(self).dictionary_spec(),
                old(self).remaining_spec(),
                word as int,
                feedback as nat,
            ),
            final(self).remaining_spec().len() <= old(self).remaining_spec().len(),
            match r {
                Ok(_) => final(self).remaining_spec().len() > 0,
                Err(e) => {
                    &&& e == WordleError::ContradictoryFeedback
                    &&& final(self).remaining_spec().len() == 0
                },
            },
    {
        proof {
            self.dictionary.lemma_wf_properties();
        }
        let ghost rem0 = self.remaining_set@;
        let mut filtered: Vec<usize> = Vec::new();
        let n_rem = self.remaining_set.len();
        let mut i: usize = 0;
        while i < n_rem
            invariant
                i <= n_rem,
                n_rem == rem0.len(),
                rem0 == self.remaining_set@,
                self.dictionary.wf(),
                word < self.dictionary.n_words_spec(),
                forall|j: int|
                    0 <= j < rem0.len() ==> (#[trigger] rem0[j])
                        < self.dictionary.n_solutions_spec(),
                filtered@ == filtered_candidates(
                    self.dictionary,
                    rem0.subrange(0, i as int),
                    word as int,
                    feedback as nat,
                ),
            decreases n_rem - i,
        {
            let ghost pre = rem0.subrange(0, i as int);
            let ghost post = rem0.subrange(0, i + 1);
            proof {
                assert(post.drop_last() =~= pre);
                assert(post.last() == rem0[i as int]);
            }
            let solution = self.remaining_set[i];
            let fb = self.dictionary.get_feedback(solution, word);
            if fb == feedback {
                filtered.push(solution);
            }
            i = i + 1;
        }
        proof {
            assert(rem0.subrange(0, n_rem as int) =~= rem0);
            lemma_apply_feedback_monotonic(
                self.dictionary,
                rem0,
                word as int,
                feedback as nat,
            );
            lemma_filtered_candidates_subset(
                self.dictionary,
                rem0,
                word as int,
                feedback as nat,
            );
        }
        let is_empty = filtered.len() == 0;
        self.remaining_set = filtered;
        self.is_first_guess = false;
        proof {
            assert forall|j: int|
                0 <= j < self.remaining_set@.len() implies (#[trigger] self.remaining_set@[j])
                < self.dictionary.n_solutions_spec() by {
                assert(rem0.contains(self.remaining_set@[j]));
            }
        }
        if is_empty {
            Err(WordleError::ContradictoryFeedback)
        } else {
            Ok(())
        }
    }

    /// Selects the guess for the current state: the sole remaining candidate
    /// when one is left (its solution index is its word index), else the
    /// cached opening guess at the start of a round, else the word of the
    /// universe with the minimum score, ties broken by the lowest word index.
    pub fn get_guess(&self) -> (r: usize)
        requires
            self.wf(),
        ensures
            r == self.select_spec(),
            r < self.dictionary_spec().n_words_spec(),
            self.remaining_spec().len() != 1 && !self.is_first_spec() ==> forall|g: int|
                0 <= g < self.dictionary_spec().n_words_spec() ==> score_spec(
                    self.dictionary_spec(),
                    self.remaining_spec(),
                    r as int,
                ) <= #[trigger] score_spec(self.dictionary_spec(), self.remaining_spec(), g),
    {
        proof {
            self.dictionary.lemma_wf_properties();
            lemma_best_guess_minimal(self.dictionary, self.remaining_set@);
        }
        if self.remaining_set.len() == 1 {
            self.remaining_set[0]
        } else if self.is_first_guess {
            self.first_guess
        } else {
            best_guess(&self.dictionary, &self.remaining_set)
        }
    }

    /// The sole remaining candidate's solution index when exactly one
    /// candidate is left, else nothing. This is the termination predicate of
    /// a round.
    pub fn get_solution(&self) -> (r: Option<usize>)
        requires
            self.wf(),
        ensures
            match r {
                Some(s) => {
                    &&& self.remaining_spec().len() == 1
                    &&& s == self.remaining_spec()[0]
                    &&& s < self.dictionary_spec().n_solutions_spec()
                },
                None => self.remaining_spec().len() != 1,
            },
    {
        if self.remaining_set.len() == 1 {
            Some(self.remaining_set[0])
        } else {
            None
        }
    }

    /// Starts a new round without rebuilding the signature table: the
    /// remaining candidates are restored to the full solution set — the same
    /// set a freshly built solver holds, whatever feedback was applied — and
    /// the round again awaits its first guess.
    pub fn reset(&mut self)
        requires
            old(self).wf(),
        ensures
            final(self).wf(),
            final(self).dictionary_spec() == old(self).dictionary_spec(),
            final(self).first_guess_spec() == old(self).first_guess_spec(),
            final(self).is_first_spec(),
            final(self).remaining_spec() == init_remaining(
                old(self).dictionary_spec().n_solutions_spec(),
            ),
    {
        proof {
            self.dictionary.lemma_wf_properties();
        }
        self.is_first_guess = true;
        let n_solutions = self.dictionary.get_n_solutions();
        self.remaining_set = full_candidate_set(n_solutions);
    }

    /// The dictionary the solver was built from.
    pub fn get_dictionary(&self) -> (r: &WordleDictionary)
        ensures
            *r == self.dictionary_spec(),
    {
        &self.dictionary
    }
}

/// Two solvers in the same state select the same guess: the selection is a
/// function of the dictionary, the remaining candidates, and the
/// first-guess flag alone, so identically built, identically fed solvers
/// stay in lockstep.
pub proof fn lemma_deterministic_selection(a: WordleBot, b: WordleBot)
    requires
        a.wf(),
        b.wf(),
        a.dictionary_spec() == b.dictionary_spec(),
        a.remaining_spec() == b.remaining_spec(),
        a.is_first_spec() == b.is_first_spec(),
    ensures
        a.select_spec() == b.select_spec(),
{
}

} // verus!
