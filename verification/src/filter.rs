//! Candidate filtering for the entropy-based variant: a word survives a
//! `(guess, pattern)` observation exactly when it would have produced the
//! same pattern, and is not the guess just made.

use vstd::prelude::*;
use crate::pattern::{encode_spec, make_a_guess, patterns_equal, words_equal, Feedback};

verus! {

/// Whether candidate `w` is kept by the filter for `guess` observed with
/// `pattern`: `w` is indistinguishable from the true answer under `guess`,
/// and is not the guess itself.
pub open spec fn keeps(guess: Seq<u8>, pattern: Seq<Feedback>, w: Seq<u8>) -> bool {
    encode_spec(guess, w) == pattern && w != guess
}

/// The candidates of `words` consistent with the pattern that `guess`
/// produces against `answer`, in their original order.
pub open spec fn filter_spec(answer: Seq<u8>, guess: Seq<u8>, words: Seq<Seq<u8>>) -> Seq<
    Seq<u8>,
> {
    words.filter(|w: Seq<u8>| keeps(guess, encode_spec(guess, answer), w))
}

/// Copy one word.
pub fn clone_word(w: &Vec<u8>) -> (r: Vec<u8>)
    ensures
        r@ == w@,
{
    let mut r: Vec<u8> = Vec::new();
    let mut i: usize = 0;
    while i < w.len()
        invariant
            0 <= i <= w@.len(),
            r@ == w@.take(i as int),
        decreases w@.len() - i,
    {
        r.push(w[i]);
        proof {
            assert(r@ =~= w@.take(i + 1));
        }
        i = i + 1;
    }
    proof {
        assert(w@.take(w@.len() as int) =~= w@);
    }
    r
}

/// Copy a list of words.
pub fn clone_words(ws: &Vec<Vec<u8>>) -> (r: Vec<Vec<u8>>)
    ensures
        r.deep_view() == ws.deep_view(),
        r@.len() == ws@.len(),
{
    let mut r: Vec<Vec<u8>> = Vec::new();
    let mut i: usize = 0;
    while i < ws.len()
        invariant
            0 <= i <= ws@.len(),
            r@.len() == i,
            forall|j: int| 0 <= j < i ==> r.deep_view()[j] == ws.deep_view()[j],
        decreases ws@.len() - i,
    {
        r.push(clone_word(&ws[i]));
        i = i + 1;
    }
    proof {
        assert(r.deep_view() =~= ws.deep_view());
    }
    r
}

/// Narrow `words` to the candidates consistent with the pattern that `guess`
/// produces against `answer`, dropping the guess itself, and keeping the
/// surviving words in their original order. The result never has more words
/// than the input.
pub fn filter_words(answer: &Vec<u8>, guess: &Vec<u8>, words: &Vec<Vec<u8>>) -> (r: Vec<Vec<u8>>)
    requires
        guess@.len() == answer@.len(),
        forall|i: int| 0 <= i < words@.len() ==> (#[trigger] words.deep_view()[i]).len()
            == guess@.len(),
    ensures
        r.deep_view() == filter_spec(answer@, guess@, words.deep_view()),
        r@.len() <= words@.len(),
        forall|i: int| 0 <= i < r@.len() ==> (#[trigger] r.deep_view()[i]).len() == guess@.len(),
{
    let observed = make_a_guess(guess, answer);
    let ghost pred = |w: Seq<u8>| keeps(guess@, encode_spec(guess@, answer@), w);
    let mut r: Vec<Vec<u8>> = Vec::new();
    let mut i: usize = 0;
    while i < words.len()
        invariant
            guess@.len() == answer@.len(),
            forall|k: int| 0 <= k < words@.len() ==> (#[trigger] words.deep_view()[k]).len()
                == guess@.len(),
            0 <= i <= words@.len(),
            observed@ == encode_spec(guess@, answer@),
            pred == (|w: Seq<u8>| keeps(guess@, encode_spec(guess@, answer@), w)),
            r.deep_view() == words.deep_view().take(i as int).filter(pred),
            r@.len() <= i,
            forall|k: int| 0 <= k < r@.len() ==> (#[trigger] r.deep_view()[k]).len()
                == guess@.len(),
        decreases words@.len() - i,
    {
        proof {
            assert(words.deep_view()[i as int].len() == guess@.len());
            assert(words@[i as int].deep_view() =~= words@[i as int]@);
        }
        let p = make_a_guess(guess, &words[i]);
        let keep = patterns_equal(&p, &observed) && !words_equal(&words[i], guess);
        proof {
            let prefix = words.deep_view().take(i as int);
            let w = words.deep_view()[i as int];
            assert(prefix.push(w) =~= words.deep_view().take(i + 1));
            prefix.lemma_filter_push(w, pred);
        }
        if keep {
            let ghost old_r = r.deep_view();
            r.push(clone_word(&words[i]));
            proof {
                assert(r.deep_view() =~= old_r.push(words.deep_view()[i as int]));
            }
        }
        i = i + 1;
    }
    proof {
        assert(words.deep_view().take(words@.len() as int) =~= words.deep_view());
        words.deep_view().lemma_filter_len(pred);
    }
    r
}

/// Every element of a filtered sequence satisfies the filter's predicate,
/// and a sequence all of whose elements satisfy it is left unchanged.
proof fn lemma_filter_fixed_point<A>(s: Seq<A>, pred: spec_fn(A) -> bool)
    requires
        forall|i: int| 0 <= i < s.len() ==> pred(#[trigger] s[i]),
    ensures
        s.filter(pred) == s,
    decreases s.len(),
{
    reveal(Seq::filter);
    if s.len() > 0 {
        lemma_filter_fixed_point(s.drop_last(), pred);
        assert(s.drop_last().filter(pred).push(s.last()) =~= s);
    }
}

/// Filtering is idempotent: applying the same `(guess, answer)` filter twice
/// to a candidate set yields the same result as applying it once.
pub proof fn lemma_filter_idempotent(answer: Seq<u8>, guess: Seq<u8>, words: Seq<Seq<u8>>)
    ensures
        filter_spec(answer, guess, filter_spec(answer, guess, words)) == filter_spec(
            answer,
            guess,
            words,
        ),
{
    let pred = |w: Seq<u8>| keeps(guess, encode_spec(guess, answer), w);
    let once = words.filter(pred);
    assert forall|i: int| 0 <= i < once.len() implies pred(#[trigger] once[i]) by {
        words.lemma_filter_pred(pred, i);
    }
    lemma_filter_fixed_point(once, pred);
}

/// A candidate set is monotonically non-increasing under filtering.
pub proof fn lemma_filter_monotonic(answer: Seq<u8>, guess: Seq<u8>, words: Seq<Seq<u8>>)
    ensures
        filter_spec(answer, guess, words).len() <= words.len(),
{
    words.lemma_filter_len(|w: Seq<u8>| keeps(guess, encode_spec(guess, answer), w));
}

/// The true answer survives filtering by its own feedback, as long as it is
/// among the candidates and is not the guess just tried.
pub proof fn lemma_answer_survives(answer: Seq<u8>, guess: Seq<u8>, words: Seq<Seq<u8>>)
    requires
        words.contains(answer),
        answer != guess,
    ensures
        filter_spec(answer, guess, words).contains(answer),
{
    let pred = |w: Seq<u8>| keeps(guess, encode_spec(guess, answer), w);
    let i = choose|i: int| 0 <= i < words.len() && words[i] == answer;
    words.lemma_filter_contains(pred, i);
}

} // verus!
