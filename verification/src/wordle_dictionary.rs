//! The word dictionary: the consolidated word universe with the solution
//! words placed first, and the dense precomputed table of the signature of
//! every (guess, solution) pair.
//!
//! Construction validates the configuration: every word must have the same
//! length, the signature space `3^word_length` must fit the signature type,
//! and every solution must occur in the guessable-word list. The consolidated
//! universe holds the solutions first, followed by the guessable words that
//! are not solutions, so a solution index is also a word index.

use vstd::prelude::*;

use crate::WordleError;
use crate::feedback_calculator::Feedback;
use crate::feedback_calculator::calculate_feedback;
use crate::feedback_calculator::feedback_spec;
use crate::feedback_calculator::lemma_feedback_prefix_bound;
use crate::feedback_calculator::lemma_pow3_increases;
use crate::feedback_calculator::pow3;

verus! {

/// The sequence of mathematical words denoted by a sequence of byte vectors.
pub open spec fn word_views(ws: Seq<Vec<u8>>) -> Seq<Seq<u8>> {
    Seq::new(ws.len(), |i: int| ws[i]@)
}

/// Whether the word `w` occurs in `ws`.
pub open spec fn seq_contains_word(ws: Seq<Seq<u8>>, w: Seq<u8>) -> bool {
    exists|i: int| 0 <= i < ws.len() && ws[i] == w
}

/// The common word length of a universe: the length of its first word, or 0
/// when both lists are empty.
pub open spec fn config_length(solutions: Seq<Seq<u8>>, all_words: Seq<Seq<u8>>) -> nat {
    if solutions.len() > 0 {
        solutions[0].len()
    } else if all_words.len() > 0 {
        all_words[0].len()
    } else {
        0
    }
}

/// Whether every word of both lists has the common length.
pub open spec fn uniform_length(solutions: Seq<Seq<u8>>, all_words: Seq<Seq<u8>>) -> bool {
    &&& forall|i: int|
        0 <= i < solutions.len() ==> (#[trigger] solutions[i]).len() == config_length(
            solutions,
            all_words,
        )
    &&& forall|i: int|
        0 <= i < all_words.len() ==> (#[trigger] all_words[i]).len() == config_length(
            solutions,
            all_words,
        )
}

/// Whether every solution occurs among the guessable words.
pub open spec fn solutions_in_universe(solutions: Seq<Seq<u8>>, all_words: Seq<Seq<u8>>) -> bool {
    forall|i: int|
        0 <= i < solutions.len() ==> seq_contains_word(all_words, #[trigger] solutions[i])
}

/// The guessable words that are not solutions, in their original order.
pub open spec fn added_words(solutions: Seq<Seq<u8>>, all_words: Seq<Seq<u8>>) -> Seq<Seq<u8>>
    decreases all_words.len(),
{
    if all_words.len() == 0 {
        Seq::empty()
    } else {
        let rest = added_words(solutions, all_words.drop_last());
        if seq_contains_word(solutions, all_words.last()) {
            rest
        } else {
            rest.push(all_words.last())
        }
    }
}

/// The consolidated word universe: the solutions first, then the guessable
/// words that are not solutions.
pub open spec fn consolidated(solutions: Seq<Seq<u8>>, all_words: Seq<Seq<u8>>) -> Seq<Seq<u8>> {
    solutions + added_words(solutions, all_words)
}

/// The position of the (guess, solution) entry in the flattened table.
pub open spec fn table_index(guess: int, solution: int, n_solutions: int) -> int {
    guess * n_solutions + solution
}

/// Whether the universe would overflow the machine's limits: the flattened
/// table length must fit a `usize` and a class count must fit the signature
/// type's width.
pub open spec fn over_capacity(solutions: Seq<Seq<u8>>, all_words: Seq<Seq<u8>>) -> bool {
    ||| solutions.len() > u32::MAX
    ||| consolidated(solutions, all_words).len() * solutions.len() > usize::MAX
}

/// `3^n` when it fits the signature type, `None` otherwise.
fn checked_pow3(n: usize) -> (r: Option<u32>)
    ensures
        match r {
            Some(p) => p == pow3(n as nat) && pow3(n as nat) <= u32::MAX,
            None => pow3(n as nat) > u32::MAX,
        },
{
    let mut p: u32 = 1;
    let mut i: usize = 0;
    while i < n
        invariant
            i <= n,
            p == pow3(i as nat),
        decreases n - i,
    {
        if p > u32::MAX / 3 {
            proof {
                lemma_pow3_increases((i + 1) as nat, n as nat);
            }
            return None;
        }
        p = p * 3;
        i = i + 1;
    }
    Some(p)
}

/// Whether two words hold the same letters.
fn words_equal(a: &Vec<u8>, b: &Vec<u8>) -> (r: bool)
    ensures
        r <==> a@ == b@,
{
    if a.len() != b.len() {
        return false;
    }
    let n = a.len();
    let mut i: usize = 0;
    while i < n
        invariant
            i <= n,
            n == a@.len(),
            n == b@.len(),
            forall|j: int| 0 <= j < i ==> a@[j] == b@[j],
        decreases n - i,
    {
        if a[i] != b[i] {
            return false;
        }
        i = i + 1;
    }
    proof {
        assert(a@ =~= b@);
    }
    true
}

/// Whether `w` occurs among the first `upto` entries of `words`.
fn prefix_contains(words: &Vec<Vec<u8>>, w: &Vec<u8>, upto: usize) -> (r: bool)
    requires
        upto <= words@.len(),
    ensures
        r <==> seq_contains_word(word_views(words@).subrange(0, upto as int), w@),
{
    let mut i: usize = 0;
    while i < upto
        invariant
            i <= upto,
            upto <= words@.len(),
            forall|j: int| 0 <= j < i ==> words@[j]@ != w@,
        decreases upto - i,
    {
        if words_equal(&words[i], w) {
            assert(word_views(words@).subrange(0, upto as int)[i as int] == w@);
            return true;
        }
        i = i + 1;
    }
    false
}

/// A copy of a word.
fn copy_word(w: &Vec<u8>) -> (r: Vec<u8>)
    ensures
        r@ == w@,
{
    let n = w.len();
    let mut out: Vec<u8> = Vec::new();
    let mut i: usize = 0;
    while i < n
        invariant
            i <= n,
            n == w@.len(),
            out@ =~= w@.subrange(0, i as int),
        decreases n - i,
    {
        out.push(w[i]);
        i = i + 1;
    }
    proof {
        assert(out@ =~= w@);
    }
    out
}

/// The word universe together with the precomputed signature table.
#[derive(Debug)]
pub struct WordleDictionary {
    word_length: usize,
    n_feedbacks: u32,
    n_solutions: usize,
    words: Vec<Vec<u8>>,
    feedbacks: Vec<Feedback>,
}

impl WordleDictionary {
    /// Builds the dictionary from the guessable-word list and the solution
    /// list: validates the configuration, consolidates the universe with the
    /// solutions first, and precomputes the signature of every
    /// (guess, solution) pair.
    pub fn new(all_words: Vec<Vec<u8>>, solutions: Vec<Vec<u8>>) -> (r: Result<
        WordleDictionary,
        WordleError,
    >)
        ensures
            ({
                let sv = word_views(solutions@);
                let av = word_views(all_words@);
                match r {
                    Ok(d) => {
                        &&& uniform_length(sv, av)
                        &&& pow3(config_length(sv, av)) <= u32::MAX
                        &&& solutions_in_universe(sv, av)
                        &&& !over_capacity(sv, av)
                        &&& d.wf()
                        &&& d.n_solutions_spec() == sv.len()
                        &&& d.word_length_spec() == config_length(sv, av)
                        &&& d.words_view() == consolidated(sv, av)
                    },
                    Err(e) => {
                        &&& (e == WordleError::LengthMismatch || e == WordleError::SignatureOverflow
                            || e == WordleError::SolutionNotInUniverse || e
                            == WordleError::CapacityExceeded)
                        &&& (e == WordleError::LengthMismatch <==> !uniform_length(sv, av))
                        &&& (e == WordleError::SignatureOverflow <==> uniform_length(sv, av)
                            && pow3(config_length(sv, av)) > u32::MAX)
                        &&& (e == WordleError::SolutionNotInUniverse <==> uniform_length(sv, av)
                            && pow3(config_length(sv, av)) <= u32::MAX && !solutions_in_universe(
                            sv,
                            av,
                        ))
                        &&& (e == WordleError::CapacityExceeded <==> uniform_length(sv, av)
                            && pow3(config_length(sv, av)) <= u32::MAX && solutions_in_universe(
                            sv,
                            av,
                        ) && over_capacity(sv, av))
                    },
                }
            }),
    {
        let ghost sv = word_views(solutions@);
        let ghost av = word_views(all_words@);

        // The configured word length is the length of the first word.
        let word_length: usize = if solutions.len() > 0 {
            solutions[0].len()
        } else if all_words.len() > 0 {
            all_words[0].len()
        } else {
            0
        };
        assert(word_length == config_length(sv, av));

        // Every word must have the configured length.
        let mut i: usize = 0;
        while i < solutions.len()
            invariant
                i <= solutions@.len(),
                sv == word_views(solutions@),
                av == word_views(all_words@),
                word_length == config_length(sv, av),
                forall|j: int| 0 <= j < i ==> (#[trigger] sv[j]).len() == word_length,
            decreases solutions@.len() - i,
        {
            if solutions[i].len() != word_length {
                assert(sv[i as int].len() != config_length(sv, av));
                return Err(WordleError::LengthMismatch);
            }
            i = i + 1;
        }
        let mut i: usize = 0;
        while i < all_words.len()
            invariant
                i <= all_words@.len(),
                sv == word_views(solutions@),
                av == word_views(all_words@),
                word_length == config_length(sv, av),
                forall|j: int| 0 <= j < sv.len() ==> (#[trigger] sv[j]).len() == word_length,
                forall|j: int| 0 <= j < i ==> (#[trigger] av[j]).len() == word_length,
            decreases all_words@.len() - i,
        {
            if all_words[i].len() != word_length {
                assert(av[i as int].len() != config_length(sv, av));
                return Err(WordleError::LengthMismatch);
            }
            i = i + 1;
        }
        assert(uniform_length(sv, av));

        // The signature space must fit the signature type.
        let n_feedbacks: u32 = match checked_pow3(word_length) {
            Some(p) => p,
            None => {
                return Err(WordleError::SignatureOverflow);
            },
        };

        // Every solution must occur among the guessable words.
        let mut i: usize = 0;
        while i < solutions.len()
            invariant
                i <= solutions@.len(),
                sv == word_views(solutions@),
                av == word_views(all_words@),
                uniform_length(sv, av),
                pow3(config_length(sv, av)) <= u32::MAX,
                forall|j: int| 0 <= j < i ==> seq_contains_word(av, #[trigger] sv[j]),
            decreases solutions@.len() - i,
        {
            let all_len = all_words.len();
            proof {
                assert(word_views(all_words@).subrange(0, all_len as int) =~= av);
            }
            if !prefix_contains(&all_words, &solutions[i], all_len) {
                assert(!seq_contains_word(av, sv[i as int]));
                return Err(WordleError::SolutionNotInUniverse);
            }
            i = i + 1;
        }
        assert(solutions_in_universe(sv, av));

        // Consolidate: the solutions first, then the guessable words that
        // are not solutions.
        let n_solutions = solutions.len();
        let n_all = all_words.len();
        let mut words = solutions;
        proof {
            assert(av.subrange(0, 0) =~= Seq::<Seq<u8>>::empty());
            assert(word_views(words@) =~= sv + added_words(sv, av.subrange(0, 0)));
            assert forall|j: int| 0 <= j < words@.len() implies (#[trigger] words@[j])@.len()
                == word_length by {
                assert(sv[j].len() == config_length(sv, av));
            }
        }
        let mut i: usize = 0;
        while i < n_all
            invariant
                i <= n_all,
                n_all == all_words@.len(),
                av == word_views(all_words@),
                n_solutions == sv.len(),
                n_solutions <= words@.len(),
                word_views(words@) == sv + added_words(sv, av.subrange(0, i as int)),
                forall|j: int|
                    0 <= j < words@.len() ==> (#[trigger] words@[j])@.len() == word_length,
                forall|j: int| 0 <= j < av.len() ==> (#[trigger] av[j]).len() == word_length,
            decreases n_all - i,
        {
            proof {
                assert(word_views(words@).subrange(0, n_solutions as int) =~= sv);
            }
            let ghost pre = av.subrange(0, i as int);
            let ghost post = av.subrange(0, i + 1);
            proof {
                assert(post.drop_last() =~= pre);
                assert(post.last() == av[i as int]);
            }
            let in_solutions = prefix_contains(&words, &all_words[i], n_solutions);
            if !in_solutions {
                let ghost before = words@;
                let w = copy_word(&all_words[i]);
                words.push(w);
                proof {
                    assert(!seq_contains_word(sv, av[i as int]));
                    assert(added_words(sv, post) == added_words(sv, pre).push(av[i as int]));
                    assert(word_views(words@) =~= word_views(before).push(av[i as int]));
                    assert(word_views(words@) =~= sv + added_words(sv, post));
                }
            } else {
                proof {
                    assert(seq_contains_word(sv, av[i as int]));
                    assert(added_words(sv, post) == added_words(sv, pre));
                    assert(word_views(words@) =~= sv + added_words(sv, post));
                }
            }
            i = i + 1;
        }
        proof {
            assert(av.subrange(0, n_all as int) =~= av);
        }
        assert(word_views(words@) == consolidated(sv, av));

        // The class counts of a scoring pass must fit the signature type's
        // width, and the flattened table length must fit a `usize`.
        if n_solutions > u32::MAX as usize {
            return Err(WordleError::CapacityExceeded);
        }
        let n_words = words.len();
        let total = match n_words.checked_mul(n_solutions) {
            Some(t) => t,
            None => {
                return Err(WordleError::CapacityExceeded);
            },
        };

        // Precompute the signature of every (guess, solution) pair.
        let mut feedbacks: Vec<Feedback> = Vec::new();
        let mut g: usize = 0;
        while g < n_words
            invariant
                g <= n_words,
                n_words == words@.len(),
                n_solutions <= n_words,
                n_words * n_solutions <= usize::MAX,
                pow3(word_length as nat) <= u32::MAX,
                forall|j: int|
                    0 <= j < words@.len() ==> (#[trigger] words@[j])@.len() == word_length,
                feedbacks@.len() == g * n_solutions,
                forall|g2: int, s2: int|
                    0 <= g2 < g && 0 <= s2 < n_solutions ==> feedbacks@[#[trigger] table_index(
                        g2,
                        s2,
                        n_solutions as int,
                    )] == feedback_spec(words@[s2]@, words@[g2]@),
            decreases n_words - g,
        {
            let mut s: usize = 0;
            while s < n_solutions
                invariant
                    s <= n_solutions,
                    g < n_words,
                    n_words == words@.len(),
                    n_solutions <= n_words,
                    n_words * n_solutions <= usize::MAX,
                    pow3(word_length as nat) <= u32::MAX,
                    forall|j: int|
                        0 <= j < words@.len() ==> (#[trigger] words@[j])@.len() == word_length,
                    feedbacks@.len() == g * n_solutions + s,
                    forall|g2: int, s2: int|
                        0 <= g2 < g && 0 <= s2 < n_solutions ==> feedbacks@[#[trigger] table_index(
                            g2,
                            s2,
                            n_solutions as int,
                        )] == feedback_spec(words@[s2]@, words@[g2]@),
                    forall|s2: int|
                        0 <= s2 < s ==> feedbacks@[#[trigger] table_index(
                            g as int,
                            s2,
                            n_solutions as int,
                        )] == feedback_spec(words@[s2]@, words@[g as int]@),
                decreases n_solutions - s,
            {
                proof {
                    assert(g * n_solutions + s < n_words * n_solutions) by (nonlinear_arith)
                        requires
                            0 <= g < n_words,
                            0 <= s < n_solutions,
                    ;
                }
                let fb = calculate_feedback(words[s].as_slice(), words[g].as_slice());
                feedbacks.push(fb);
                proof {
                    assert(forall|g2: int, s2: int|
                        0 <= g2 < g && 0 <= s2 < n_solutions ==> table_index(
                            g2,
                            s2,
                            n_solutions as int,
                        ) < g * n_solutions) by {
                        assert forall|g2: int, s2: int|
                            0 <= g2 < g && 0 <= s2 < n_solutions implies table_index(
                            g2,
                            s2,
                            n_solutions as int,
                        ) < g * n_solutions by {
                            assert(g2 * n_solutions + s2 < g * n_solutions) by (nonlinear_arith)
                                requires
                                    0 <= g2 < g,
                                    0 <= s2 < n_solutions,
                            ;
                        }
                    }
                }
                s = s + 1;
            }
            proof {
                assert((g + 1) * n_solutions == g * n_solutions + n_solutions) by (nonlinear_arith);
                assert((g + 1) * n_solutions <= n_words * n_solutions) by (nonlinear_arith)
                    requires
                        g < n_words,
                        n_solutions >= 0,
                ;
            }
            g = g + 1;
        }

        let dictionary = WordleDictionary {
            word_length,
            n_feedbacks,
            n_solutions,
            words,
            feedbacks,
        };
        assert(dictionary.wf());
        assert(dictionary.words_view() == consolidated(sv, av));
        Ok(dictionary)
    }

    /// The consolidated word universe, solutions first.
    pub closed spec fn words_view(&self) -> Seq<Seq<u8>> {
        word_views(self.words@)
    }

    /// The number of words in the universe.
    pub closed spec fn n_words_spec(&self) -> nat {
        self.words@.len()
    }

    /// The number of solution words.
    pub closed spec fn n_solutions_spec(&self) -> nat {
        self.n_solutions as nat
    }

    /// The common length of every word of the universe.
    pub closed spec fn word_length_spec(&self) -> nat {
        self.word_length as nat
    }

    /// The solution words: the first `n_solutions` entries of the universe.
    pub open spec fn solutions_view(&self) -> Seq<Seq<u8>> {
        self.words_view().subrange(0, self.n_solutions_spec() as int)
    }

    /// The signature of guessing word `guess` when the hidden word is
    /// solution `solution`, as the precomputed table states it.
    pub open spec fn table_feedback(&self, solution: int, guess: int) -> nat {
        feedback_spec(self.words_view()[solution], self.words_view()[guess])
    }

    /// Well-formedness: the solutions are a prefix of the universe, every
    /// word has the configured length, the signature space fits the
    /// signature type, the class counts of a scoring pass fit their type,
    /// and the flattened table holds the signature of every pair.
    pub closed spec fn wf(&self) -> bool {
        &&& self.n_solutions <= self.words@.len()
        &&& self.n_solutions as nat <= u32::MAX as nat
        &&& forall|i: int|
            0 <= i < self.words@.len() ==> (#[trigger] self.words@[i])@.len() == self.word_length
        &&& pow3(self.word_length as nat) <= u32::MAX
        &&& self.n_feedbacks == pow3(self.word_length as nat)
        &&& self.feedbacks@.len() == self.words@.len() * self.n_solutions
        &&& forall|g: int, s: int|
            0 <= g < self.words@.len() && 0 <= s < self.n_solutions
                ==> self.feedbacks@[#[trigger] table_index(g, s, self.n_solutions as int)]
                == feedback_spec(self.words@[s]@, self.words@[g]@)
    }

    /// Facts every well-formed dictionary grants its callers.
    pub proof fn lemma_wf_properties(&self)
        requires
            self.wf(),
        ensures
            self.n_solutions_spec() <= self.n_words_spec(),
            self.n_solutions_spec() <= u32::MAX,
            pow3(self.word_length_spec()) <= u32::MAX,
            forall|i: int|
                0 <= i < self.n_words_spec() ==> (#[trigger] self.words_view()[i]).len()
                    == self.word_length_spec(),
    {
    }

    /// The number of words in the universe.
    pub fn get_n_words(&self) -> (r: usize)
        ensures
            r == self.n_words_spec(),
    {
        self.words.len()
    }

    /// The number of solution words.
    pub fn get_n_solutions(&self) -> (r: usize)
        ensures
            r == self.n_solutions_spec(),
    {
        self.n_solutions
    }

    /// The common length of every word of the universe.
    pub fn get_word_length(&self) -> (r: usize)
        ensures
            r == self.word_length_spec(),
    {
        self.word_length
    }

    /// The number of distinct signatures, `3^word_length`.
    pub fn get_n_feedbacks(&self) -> (r: u32)
        requires
            self.wf(),
        ensures
            r == pow3(self.word_length_spec()),
    {
        self.n_feedbacks
    }

    /// The word index of a solution index. The consolidated universe places
    /// the solutions first, so a solution's word index is the solution index
    /// itself.
    pub fn solution_to_word(&self, solution: usize) -> (r: usize)
        requires
            self.wf(),
            solution < self.n_solutions_spec(),
        ensures
            r == solution,
            r < self.n_words_spec(),
    {
        solution
    }

    /// The solution word at a solution index.
    pub fn solution_string(&self, word: usize) -> (r: &Vec<u8>)
        requires
            self.wf(),
            word < self.n_solutions_spec(),
        ensures
            r@ == self.words_view()[word as int],
            r@ == self.solutions_view()[word as int],
    {
        &self.words[word]
    }

    /// The word at a word index.
    pub fn word_string(&self, word: usize) -> (r: &Vec<u8>)
        requires
            self.wf(),
            word < self.n_words_spec(),
        ensures
            r@ == self.words_view()[word as int],
    {
        &self.words[word]
    }

    /// The precomputed signature of guessing word `guess` when the hidden
    /// word is solution `solution`.
    pub fn get_feedback(&self, solution: usize, guess: usize) -> (r: Feedback)
        requires
            self.wf(),
            solution < self.n_solutions_spec(),
            guess < self.n_words_spec(),
        ensures
            r == self.table_feedback(solution as int, guess as int),
            r < pow3(self.word_length_spec()),
    {
        let total = self.feedbacks.len();
        proof {
            assert(table_index(guess as int, solution as int, self.n_solutions as int) < total
                && guess * self.n_solutions <= total) by (nonlinear_arith)
                requires
                    guess < self.words@.len(),
                    solution < self.n_solutions,
                    total == self.words@.len() * self.n_solutions,
            ;
            lemma_feedback_prefix_bound(
                self.words@[solution as int]@,
                self.words@[guess as int]@,
                self.word_length as int,
            );
        }
        self.feedbacks[guess * self.n_solutions + solution]
    }
}

} // verus!
