//! The game loop: starting from the full dictionary and a fixed,
//! precomputed opening word, guess, observe feedback, narrow the candidate
//! set, and select the next guess by the entropy rule, until the answer is
//! hit or the attempt budget is exhausted.

use vstd::prelude::*;
use crate::filter::{filter_spec, filter_words, clone_word, clone_words};
use crate::pattern::words_equal;
use crate::select::{best_guess, best_guess_spec, SolverError};

verus! {

/// How one game ended: solved, with the number of guesses used, or not
/// solved within the attempt budget.
#[derive(Clone, Copy, Debug, PartialEq, Eq, Structural)]
pub enum GameResult {
    Solved(usize),
    Exhausted,
}

/// The rest of a game, given the answer, the surviving candidates, the
/// guess about to be made, the number of guesses made so far including that
/// one, and the attempt budget. A guess equal to the answer solves the game
/// at the current count; a count at the budget without a match exhausts it;
/// otherwise the candidates are filtered by the observed feedback and the
/// entropy rule picks the next guess. An emptied candidate set is the
/// explicit contradiction error.
pub open spec fn game_spec(
    answer: Seq<u8>,
    cands: Seq<Seq<u8>>,
    guess: Seq<u8>,
    n: usize,
    budget: usize,
) -> Result<GameResult, SolverError>
    decreases budget - n,
{
    if guess == answer {
        Ok(GameResult::Solved(n))
    } else if n >= budget {
        Ok(GameResult::Exhausted)
    } else {
        let next = filter_spec(answer, guess, cands);
        if next.len() == 0 {
            Err(SolverError::EmptyCandidates)
        } else {
            game_spec(answer, next, best_guess_spec(next), (n + 1) as usize, budget)
        }
    }
}

/// Whether the answer, the dictionary and the opening word all share one
/// length.
pub open spec fn lengths_consistent(answer: Seq<u8>, words: Seq<Seq<u8>>, first: Seq<u8>) -> bool {
    &&& first.len() == answer.len()
    &&& forall|i: int| 0 <= i < words.len() ==> (#[trigger] words[i]).len() == answer.len()
}

/// What one game returns: the length check fails fast, and otherwise the
/// game plays out from guess one.
pub open spec fn game_outcome(
    answer: Seq<u8>,
    words: Seq<Seq<u8>>,
    first: Seq<u8>,
    budget: usize,
) -> Result<GameResult, SolverError> {
    if !lengths_consistent(answer, words, first) {
        Err(SolverError::LengthMismatch)
    } else {
        game_spec(answer, words, first, 1, budget)
    }
}

/// A game whose very first guess is the hidden answer reports one guess,
/// whatever the dictionary, the budget, or anything else.
pub proof fn lemma_first_guess_answer_solves(
    answer: Seq<u8>,
    words: Seq<Seq<u8>>,
    budget: usize,
)
    ensures
        game_spec(answer, words, answer, 1, budget) == Ok::<GameResult, SolverError>(
            GameResult::Solved(1),
        ),
{
}

/// Play one game: open with `first_word`, and guess under the entropy rule
/// until `answer` is hit or `budget` guesses have been used. Words of
/// mismatched lengths are rejected up front.
pub fn game(answer: &Vec<u8>, words: &Vec<Vec<u8>>, first_word: &Vec<u8>, budget: usize) -> (r:
    Result<GameResult, SolverError>)
    requires
        words@.len() < 0x1_0000_0000,
    ensures
        r == game_outcome(answer@, words.deep_view(), first_word@, budget),
{
    let ghost dv = words.deep_view();
    if first_word.len() != answer.len() {
        return Err(SolverError::LengthMismatch);
    }
    let mut i: usize = 0;
    while i < words.len()
        invariant
            dv == words.deep_view(),
            0 <= i <= dv.len(),
            forall|k: int| 0 <= k < i ==> (#[trigger] dv[k]).len() == answer@.len(),
        decreases dv.len() - i,
    {
        if words[i].len() != answer.len() {
            proof {
                assert(words@[i as int].deep_view() =~= words@[i as int]@);
                assert(dv[i as int].len() != answer@.len());
            }
            return Err(SolverError::LengthMismatch);
        }
        proof {
            assert(words@[i as int].deep_view() =~= words@[i as int]@);
        }
        i = i + 1;
    }
    let mut possible = clone_words(words);
    let mut guess = clone_word(first_word);
    let mut n: usize = 1;
    loop
        invariant
            dv == words.deep_view(),
            lengths_consistent(answer@, dv, first_word@),
            guess@.len() == answer@.len(),
            possible@.len() < 0x1_0000_0000,
            forall|k: int| 0 <= k < possible@.len() ==> (#[trigger] possible.deep_view()[k]).len()
                == answer@.len(),
            1 <= n <= budget + 1,
            game_spec(answer@, possible.deep_view(), guess@, n, budget) == game_spec(
                answer@,
                dv,
                first_word@,
                1,
                budget,
            ),
        decreases budget + 1 - n,
    {
        if words_equal(&guess, answer) {
            return Ok(GameResult::Solved(n));
        }
        if n >= budget {
            return Ok(GameResult::Exhausted);
        }
        let next = filter_words(answer, &guess, &possible);
        proof {
            assert forall|k: int, l: int|
                0 <= k < next@.len() && 0 <= l < next@.len() implies (
            #[trigger] next.deep_view()[k]).len() == (#[trigger] next.deep_view()[l]).len() by {
                assert(next.deep_view()[k].len() == guess@.len());
                assert(next.deep_view()[l].len() == guess@.len());
            }
        }
        match best_guess(&next) {
            Err(e) => {
                return Err(e);
            },
            Ok(w) => {
                possible = next;
                guess = w;
                n = n + 1;
            },
        }
    }
}

/// Play one game for each answer of `answers`, against the same dictionary,
/// opening word and budget, and report each outcome in order.
pub fn play_all_words(
    words: &Vec<Vec<u8>>,
    answers: &Vec<Vec<u8>>,
    first_word: &Vec<u8>,
    budget: usize,
) -> (r: Vec<Result<GameResult, SolverError>>)
    requires
        words@.len() < 0x1_0000_0000,
    ensures
        r@.len() == answers@.len(),
        forall|i: int|
            0 <= i < answers@.len() ==> r@[i] == game_outcome(
                #[trigger] answers.deep_view()[i],
                words.deep_view(),
                first_word@,
                budget,
            ),
{
    let mut r: Vec<Result<GameResult, SolverError>> = Vec::new();
    let mut i: usize = 0;
    while i < answers.len()
        invariant
            words@.len() < 0x1_0000_0000,
            0 <= i <= answers@.len(),
            r@.len() == i,
            forall|k: int|
                0 <= k < i ==> r@[k] == game_outcome(
                    #[trigger] answers.deep_view()[k],
                    words.deep_view(),
                    first_word@,
                    budget,
                ),
        decreases answers@.len() - i,
    {
        proof {
            assert(answers@[i as int].deep_view() =~= answers@[i as int]@);
        }
        let outcome = game(&answers[i], words, first_word, budget);
        r.push(outcome);
        i = i + 1;
    }
    r
}

} // verus!
