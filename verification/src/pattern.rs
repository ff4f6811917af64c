//! Feedback patterns: comparing a guess against an answer, position by
//! position, yields one symbol per letter.

use vstd::prelude::*;

verus! {

/// The feedback for one position of a guess: the letter is in the right
/// place, present elsewhere in the answer, or absent from it.
#[derive(Clone, Copy, Debug, PartialEq, Eq, Structural)]
pub enum Feedback {
    Correct,
    Present,
    Absent,
}

impl View for Feedback {
    type V = Feedback;

    open spec fn view(&self) -> Feedback {
        *self
    }
}

impl DeepView for Feedback {
    type V = Feedback;

    open spec fn deep_view(&self) -> Feedback {
        *self
    }
}

/// The feedback symbol for position `i` of `guess` against `answer`:
/// `Correct` on an exact match, `Present` when the letter occurs anywhere in
/// the answer, `Absent` otherwise. Letter presence is a plain containment
/// check, without per-letter multiplicity accounting.
pub open spec fn feedback_at(guess: Seq<u8>, answer: Seq<u8>, i: int) -> Feedback {
    if guess[i] == answer[i] {
        Feedback::Correct
    } else if answer.contains(guess[i]) {
        Feedback::Present
    } else {
        Feedback::Absent
    }
}

/// The full feedback pattern for `guess` against `answer`, one symbol per
/// position of the guess.
pub open spec fn encode_spec(guess: Seq<u8>, answer: Seq<u8>) -> Seq<Feedback> {
    Seq::new(guess.len(), |i: int| feedback_at(guess, answer, i))
}

/// Whether a pattern marks every position correct.
pub open spec fn all_correct(pattern: Seq<Feedback>) -> bool {
    forall|i: int| 0 <= i < pattern.len() ==> pattern[i] is Correct
}

/// Whether `b` occurs anywhere in `word`.
pub fn contains_byte(word: &Vec<u8>, b: u8) -> (r: bool)
    ensures
        r == word@.contains(b),
{
    let mut i: usize = 0;
    while i < word.len()
        invariant
            0 <= i <= word@.len(),
            forall|j: int| 0 <= j < i ==> word@[j] != b,
        decreases word@.len() - i,
    {
        if word[i] == b {
            return true;
        }
        i = i + 1;
    }
    false
}

/// Whether two words hold the same letters in the same order.
pub fn words_equal(a: &Vec<u8>, b: &Vec<u8>) -> (r: bool)
    ensures
        r == (a@ == b@),
{
    if a.len() != b.len() {
        return false;
    }
    let mut i: usize = 0;
    while i < a.len()
        invariant
            a@.len() == b@.len(),
            0 <= i <= a@.len(),
            forall|j: int| 0 <= j < i ==> a@[j] == b@[j],
        decreases a@.len() - i,
    {
        if a[i] != b[i] {
            return false;
        }
        i = i + 1;
    }
    proof {
        assert(a@ =~= b@);
    }
    true
}

/// Whether two feedback patterns are equal, symbol by symbol.
pub fn patterns_equal(a: &Vec<Feedback>, b: &Vec<Feedback>) -> (r: bool)
    ensures
        r == (a@ == b@),
{
    if a.len() != b.len() {
        return false;
    }
    let mut i: usize = 0;
    while i < a.len()
        invariant
            a@.len() == b@.len(),
            0 <= i <= a@.len(),
            forall|j: int| 0 <= j < i ==> a@[j] == b@[j],
        decreases a@.len() - i,
    {
        if a[i] != b[i] {
            return false;
        }
        i = i + 1;
    }
    proof {
        assert(a@ =~= b@);
    }
    true
}

/// Encode the feedback pattern that `guess` produces against `answer`.
/// A pure, deterministic, total function of the two words; they must share
/// one length.
pub fn make_a_guess(guess: &Vec<u8>, answer: &Vec<u8>) -> (pattern: Vec<Feedback>)
    requires
        guess@.len() == answer@.len(),
    ensures
        pattern@ == encode_spec(guess@, answer@),
{
    let mut pattern: Vec<Feedback> = Vec::new();
    let mut i: usize = 0;
    while i < guess.len()
        invariant
            guess@.len() == answer@.len(),
            0 <= i <= guess@.len(),
            pattern@.len() == i,
            forall|j: int| 0 <= j < i ==> pattern@[j] == feedback_at(guess@, answer@, j),
        decreases guess@.len() - i,
    {
        if guess[i] == answer[i] {
            pattern.push(Feedback::Correct);
        } else if contains_byte(answer, guess[i]) {
            pattern.push(Feedback::Present);
        } else {
            pattern.push(Feedback::Absent);
        }
        i = i + 1;
    }
    proof {
        assert(pattern@ =~= encode_spec(guess@, answer@));
    }
    pattern
}

/// A word guessed against itself is marked all-correct.
pub proof fn lemma_self_guess_all_correct(answer: Seq<u8>)
    ensures
        all_correct(encode_spec(answer, answer)),
{
}

/// Conversely, an all-correct pattern identifies the guess: two words of one
/// length whose pattern is all-correct are letterwise equal.
pub proof fn lemma_all_correct_means_equal(guess: Seq<u8>, answer: Seq<u8>)
    requires
        guess.len() == answer.len(),
        all_correct(encode_spec(guess, answer)),
    ensures
        guess == answer,
{
    assert forall|i: int| 0 <= i < guess.len() implies guess[i] == answer[i] by {
        assert(encode_spec(guess, answer)[i] is Correct);
    }
    assert(guess =~= answer);
}

} // verus!
