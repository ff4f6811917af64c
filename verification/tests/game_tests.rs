use wordle_solver::game::{game, play_all_words, GameResult};
use wordle_solver::select::SolverError;

fn w(s: &str) -> Vec<u8> {
    s.as_bytes().to_vec()
}

fn dict(words: &[&str]) -> Vec<Vec<u8>> {
    words.iter().map(|s| w(s)).collect()
}

#[test]
fn first_guess_equal_to_answer_solves_in_one() {
    let words = dict(&["raise", "clamp", "tithe"]);
    let result = game(&w("raise"), &words, &w("raise"), 6);
    assert_eq!(result, Ok(GameResult::Solved(1)));
}

#[test]
fn first_guess_wins_even_on_an_empty_dictionary() {
    // Solving on the first guess never consults the candidate set.
    let words: Vec<Vec<u8>> = Vec::new();
    let result = game(&w("tithe"), &words, &w("tithe"), 6);
    assert_eq!(result, Ok(GameResult::Solved(1)));
}

#[test]
fn scenario_raise_then_tithe() {
    // Opening with "raise" against the answer "tithe" rules out everything
    // but "tithe" itself, which the entropy rule then selects.
    let words = dict(&["raise", "clamp", "tithe"]);
    let result = game(&w("tithe"), &words, &w("raise"), 6);
    assert_eq!(result, Ok(GameResult::Solved(2)));
}

#[test]
fn budget_of_one_exhausts_on_a_miss() {
    let words = dict(&["raise", "clamp", "tithe"]);
    let result = game(&w("tithe"), &words, &w("raise"), 1);
    assert_eq!(result, Ok(GameResult::Exhausted));
}

#[test]
fn mismatched_lengths_fail_fast() {
    let words = dict(&["raise", "clamp"]);
    assert_eq!(
        game(&w("tide"), &words, &w("raise"), 6),
        Err(SolverError::LengthMismatch)
    );
    assert_eq!(
        game(&w("tithe"), &words, &w("up"), 6),
        Err(SolverError::LengthMismatch)
    );
    let ragged = dict(&["raise", "up"]);
    assert_eq!(
        game(&w("tithe"), &ragged, &w("raise"), 6),
        Err(SolverError::LengthMismatch)
    );
}

#[test]
fn impossible_answer_empties_the_candidates() {
    // The answer shares nothing with the dictionary, so the first filter
    // leaves no candidate at all: an explicit contradiction error.
    let words = dict(&["aaaaa"]);
    let result = game(&w("zzzzz"), &words, &w("aaaaa"), 6);
    assert_eq!(result, Err(SolverError::EmptyCandidates));
}

#[test]
fn play_all_words_reports_one_outcome_per_answer() {
    let words = dict(&["raise", "clamp", "tithe"]);
    let answers = dict(&["raise", "tithe"]);
    let results = play_all_words(&words, &answers, &w("raise"), 6);
    assert_eq!(
        results,
        vec![Ok(GameResult::Solved(1)), Ok(GameResult::Solved(2))]
    );
}

/// A deterministic linear congruential generator, for building a repeatable
/// pseudo-random dictionary.
struct Lcg(u64);

impl Lcg {
    fn next(&mut self) -> u64 {
        self.0 = self.0.wrapping_mul(6364136223846793005).wrapping_add(1442695040888963407);
        self.0 >> 33
    }

    fn word(&mut self) -> Vec<u8> {
        (0..5).map(|_| b'a' + (self.next() % 26) as u8).collect()
    }
}

#[test]
fn most_games_solve_within_a_budget_of_six() {
    // A repeatable dictionary of several hundred distinct five-letter
    // words; every twentieth word hides as the answer.
    let mut lcg = Lcg(20260101);
    let mut words: Vec<Vec<u8>> = Vec::new();
    while words.len() < 500 {
        let candidate = lcg.word();
        if !words.contains(&candidate) {
            words.push(candidate);
        }
    }
    let answers: Vec<Vec<u8>> = words.iter().step_by(20).cloned().collect();
    let first = words[0].clone();
    let results = play_all_words(&words, &answers, &first, 6);
    assert_eq!(results.len(), answers.len());
    let solved = results
        .iter()
        .filter(|r| matches!(r, Ok(GameResult::Solved(_))))
        .count();
    // The large majority must solve within the budget.
    assert!(solved * 10 >= results.len() * 8, "solved only {} of {}", solved, results.len());
    // No game may end in a contradiction: every answer is in the dictionary.
    for r in &results {
        assert!(r.is_ok());
    }
}
