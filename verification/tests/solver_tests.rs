use wordle_solver::constraint::{empty_state, filter_all, is_valid, merge};
use wordle_solver::entropy::{entropy, pattern_groups};
use wordle_solver::filter::filter_words;
use wordle_solver::logarithm::log2_fixed;
use wordle_solver::overlap::{overlap, total_overlap};
use wordle_solver::pattern::{make_a_guess, Feedback};
use wordle_solver::select::{best_guess, best_guess_overlap, SolverError};

fn w(s: &str) -> Vec<u8> {
    s.as_bytes().to_vec()
}

fn dict(words: &[&str]) -> Vec<Vec<u8>> {
    words.iter().map(|s| w(s)).collect()
}

#[test]
fn encode_self_is_all_correct() {
    let word = w("tithe");
    let pattern = make_a_guess(&word, &word);
    assert_eq!(pattern.len(), 5);
    for symbol in pattern {
        assert_eq!(symbol, Feedback::Correct);
    }
}

#[test]
fn encode_is_deterministic() {
    let guess = w("crane");
    let answer = w("cigar");
    let first = make_a_guess(&guess, &answer);
    let second = make_a_guess(&guess, &answer);
    assert_eq!(first, second);
}

#[test]
fn encode_marks_each_position() {
    // answer "tithe": 'r', 'a', 's' are absent, 'i' is present elsewhere,
    // and 'e' sits at its correct position in both words.
    let pattern = make_a_guess(&w("raise"), &w("tithe"));
    assert_eq!(
        pattern,
        vec![
            Feedback::Absent,
            Feedback::Absent,
            Feedback::Present,
            Feedback::Absent,
            Feedback::Correct,
        ]
    );
}

#[test]
fn encode_containment_ignores_multiplicity() {
    // A repeated guess letter is marked by plain containment: both 'o's of
    // "spoon" are present in "notes", though "notes" has only one 'o'.
    let pattern = make_a_guess(&w("spoon"), &w("notes"));
    assert_eq!(
        pattern,
        vec![
            Feedback::Present,
            Feedback::Absent,
            Feedback::Present,
            Feedback::Present,
            Feedback::Present,
        ]
    );
}

#[test]
fn filter_keeps_consistent_words_only() {
    let words = dict(&["raise", "clamp", "tithe"]);
    let filtered = filter_words(&w("tithe"), &w("raise"), &words);
    assert_eq!(filtered, dict(&["tithe"]));
}

#[test]
fn filter_drops_the_guess_itself() {
    // "weary" would reproduce its own all-correct pattern, but the guess
    // just made is always removed.
    let words = dict(&["weary", "wears"]);
    let filtered = filter_words(&w("weary"), &w("weary"), &words);
    assert!(filtered.is_empty());
}

#[test]
fn filter_is_idempotent_on_values() {
    let words = dict(&["abcde", "fghij", "klmno", "afcdj", "abcdf"]);
    let answer = w("abcdf");
    let guess = w("abcde");
    let once = filter_words(&answer, &guess, &words);
    let twice = filter_words(&answer, &guess, &once);
    assert_eq!(once, twice);
}

#[test]
fn filter_never_grows() {
    let words = dict(&["raise", "clamp", "tithe", "wears"]);
    let mut current = words.clone();
    for guess in ["raise", "clamp"] {
        let next = filter_words(&w("tithe"), &w(guess), &current);
        assert!(next.len() <= current.len());
        current = next;
    }
}

#[test]
fn filter_preserves_order() {
    let words = dict(&["zzzzz", "aaaaa", "mmmmm"]);
    // Guess shares no letter with any word, so only the order and the
    // dropped guess distinguish the survivors.
    let filtered = filter_words(&w("qqqqq"), &w("bcdfg"), &words);
    assert_eq!(filtered, dict(&["zzzzz", "aaaaa", "mmmmm"]));
}

#[test]
fn log2_fixed_exact_at_powers_of_two() {
    assert_eq!(log2_fixed(1), 0);
    assert_eq!(log2_fixed(2), 65536);
    assert_eq!(log2_fixed(4), 2 * 65536);
    assert_eq!(log2_fixed(1024), 10 * 65536);
}

#[test]
fn log2_fixed_interpolates_between_powers() {
    // log2(3) is interpolated as 1 + (3 - 2) / 2 in units of 1/65536.
    assert_eq!(log2_fixed(3), 65536 + 32768);
    // log2(6) likewise lands at 2 + (6 - 4) / 4.
    assert_eq!(log2_fixed(6), 2 * 65536 + 32768);
}

#[test]
fn log2_fixed_is_monotone_on_a_range() {
    let mut prev = log2_fixed(1);
    for n in 2..200u64 {
        let cur = log2_fixed(n);
        assert!(prev <= cur);
        prev = cur;
    }
}

#[test]
fn group_counts_sum_to_candidate_count() {
    let words = dict(&["raise", "clamp", "tithe", "wears", "weary"]);
    let (keys, counts) = pattern_groups(&w("tithe"), &words);
    assert_eq!(keys.len(), counts.len());
    let total: usize = counts.iter().sum();
    assert_eq!(total, words.len());
    for c in counts {
        assert!(c >= 1);
    }
}

#[test]
fn entropy_of_fully_split_pair_is_one_bit() {
    // "ab" distinguishes "aa" from "bb": two groups of one, so the score is
    // N * log2_fixed(N) = 2 * 65536, one bit per candidate in fixed point.
    let words = dict(&["aa", "bb"]);
    assert_eq!(entropy(&w("ab"), &words), 2 * 65536);
}

#[test]
fn entropy_of_uninformative_guess_is_zero() {
    // "xy" gives the same all-absent pattern for both candidates: one group
    // of two, no information.
    let words = dict(&["aa", "bb"]);
    assert_eq!(entropy(&w("xy"), &words), 0);
}

#[test]
fn overlap_counts_distinct_shared_letters() {
    assert_eq!(overlap(&w("abc"), &w("cab")), 3);
    assert_eq!(overlap(&w("aabbc"), &w("ab")), 2);
    assert_eq!(overlap(&w("abc"), &w("xyz")), 0);
    // Overlap with itself counts the distinct letters.
    assert_eq!(overlap(&w("aabbc"), &w("aabbc")), 3);
}

#[test]
fn total_overlap_sums_over_candidates() {
    let words = dict(&["ab", "bc", "xy"]);
    // overlap("ab","ab") = 2, overlap("ab","bc") = 1, overlap("ab","xy") = 0.
    assert_eq!(total_overlap(&w("ab"), &words), 3);
}

#[test]
fn best_guess_fails_on_empty_candidates() {
    let words: Vec<Vec<u8>> = Vec::new();
    assert_eq!(best_guess(&words), Err(SolverError::EmptyCandidates));
    assert_eq!(best_guess_overlap(&words), Err(SolverError::EmptyCandidates));
}

#[test]
fn best_guess_returns_a_candidate() {
    let words = dict(&["raise", "clamp", "tithe"]);
    let best = best_guess(&words).unwrap();
    assert!(words.contains(&best));
}

#[test]
fn next_guess_comes_from_the_filtered_set() {
    // After opening with "raise" against the answer "tithe", the next best
    // guess must be one of the surviving candidates, never a ruled-out word
    // nor the guess already tried.
    let words = dict(&["raise", "clamp", "tithe"]);
    let filtered = filter_words(&w("tithe"), &w("raise"), &words);
    let next = best_guess(&filtered).unwrap();
    assert!(filtered.contains(&next));
    assert_ne!(next, w("raise"));
    assert_ne!(next, w("clamp"));
}

#[test]
fn best_guess_breaks_ties_towards_the_earliest() {
    // Both candidates split the set equally, so the first wins.
    let words = dict(&["aa", "bb"]);
    assert_eq!(best_guess(&words).unwrap(), w("aa"));
    assert_eq!(best_guess_overlap(&words).unwrap(), w("aa"));
}

#[test]
fn merge_records_every_kind_of_fact() {
    let state = merge(&w("ab"), &w("ba"), &empty_state());
    // Both guessed letters occur in the answer, nowhere at their guessed
    // positions.
    assert_eq!(state.required, w("ab"));
    assert!(state.excluded.is_empty());
    assert!(state.fixed.is_empty());
    assert_eq!(state.forbidden, vec![(0usize, b'a'), (1usize, b'b')]);

    let state = merge(&w("ax"), &w("ab"), &state);
    assert_eq!(state.required, w("aba"));
    assert_eq!(state.excluded, w("x"));
    assert_eq!(state.fixed, vec![(0usize, b'a')]);
    assert_eq!(
        state.forbidden,
        vec![(0usize, b'a'), (1usize, b'b'), (1usize, b'x')]
    );
}

#[test]
fn answer_stays_valid_under_its_own_feedback() {
    // Self-consistency on values: after merging several guesses against the
    // answer, the answer itself still satisfies the accumulated state.
    let answer = w("tithe");
    let mut state = empty_state();
    for guess in ["raise", "clamp", "wears", "tithe"] {
        state = merge(&w(guess), &answer, &state);
        assert!(is_valid(&answer, &state));
    }
}

#[test]
fn is_valid_rejects_each_kind_of_violation() {
    let state = merge(&w("ax"), &w("ab"), &empty_state());
    // "xb" holds the excluded letter 'x'.
    assert!(!is_valid(&w("xb"), &state));
    // "bb" misses the fixed 'a' at position 0.
    assert!(!is_valid(&w("bb"), &state));
    // "ba" holds the required letter but breaks the fixed position.
    assert!(!is_valid(&w("ba"), &state));
    // "ab" satisfies everything.
    assert!(is_valid(&w("ab"), &state));
}

#[test]
fn filter_all_keeps_only_valid_words() {
    let state = merge(&w("ax"), &w("ab"), &empty_state());
    let words = dict(&["ab", "xb", "ac", "bb"]);
    let kept = filter_all(&words, &state);
    assert_eq!(kept, dict(&["ab", "ac"]));
}

#[test]
fn constraint_state_only_grows() {
    let answer = w("abcde");
    let mut state = empty_state();
    let mut sizes = (0usize, 0usize, 0usize, 0usize);
    for guess in ["fghij", "abxyz", "abcde"] {
        state = merge(&w(guess), &answer, &state);
        let now = (
            state.required.len(),
            state.excluded.len(),
            state.fixed.len(),
            state.forbidden.len(),
        );
        assert!(now.0 >= sizes.0 && now.1 >= sizes.1 && now.2 >= sizes.2 && now.3 >= sizes.3);
        sizes = now;
    }
}
