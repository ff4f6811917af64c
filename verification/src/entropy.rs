//! The Shannon-entropy scoring rule, in fixed point. Guessing a word `w`
//! against every word of the current candidate set partitions the set by the
//! feedback pattern produced; the entropy of that partition, under a uniform
//! prior, measures the expected information gained by guessing `w`.
//!
//! Scores are kept in exact integer arithmetic: with group sizes `n_i`
//! summing to `N`, the score is `N * log2_fixed(N) - sum n_i * log2_fixed(n_i)`,
//! which is `N * 65536` times the entropy `-sum p_i * log2(p_i)` up to the
//! logarithm's interpolation. Group sizes sum to exactly `N`, and the score
//! is never negative; both are stated below.

use vstd::prelude::*;
use crate::pattern::{encode_spec, make_a_guess, patterns_equal, Feedback};
use crate::logarithm::{log2_fixed, log2_fixed_spec, lemma_log2_fixed_mono, lemma_log2_fixed_upper};
use vstd::arithmetic::mul::*;

verus! {

/// The distinct feedback patterns that `guess` produces against the words of
/// `ws`, in order of first appearance.
pub open spec fn group_keys(guess: Seq<u8>, ws: Seq<Seq<u8>>) -> Seq<Seq<Feedback>>
    decreases ws.len(),
{
    if ws.len() == 0 {
        Seq::empty()
    } else {
        let prev = group_keys(guess, ws.drop_last());
        let p = encode_spec(guess, ws.last());
        if prev.contains(p) {
            prev
        } else {
            prev.push(p)
        }
    }
}

/// How many words of `ws` produce the pattern `p` under `guess`.
pub open spec fn pattern_count(guess: Seq<u8>, ws: Seq<Seq<u8>>, p: Seq<Feedback>) -> nat {
    ws.filter(|w: Seq<u8>| encode_spec(guess, w) == p).len()
}

/// The sum of a sequence of counts.
pub open spec fn sum_counts(s: Seq<usize>) -> int
    decreases s.len(),
{
    if s.len() == 0 {
        0
    } else {
        sum_counts(s.drop_last()) + s.last()
    }
}

/// Appending one word raises by one the count of exactly its own pattern.
proof fn lemma_pattern_count_push(guess: Seq<u8>, ws: Seq<Seq<u8>>, w: Seq<u8>, p: Seq<Feedback>)
    ensures
        pattern_count(guess, ws.push(w), p) == pattern_count(guess, ws, p) + (
        if encode_spec(guess, w) == p {
            1int
        } else {
            0int
        }),
{
    ws.lemma_filter_push(w, |x: Seq<u8>| encode_spec(guess, x) == p);
}

/// Replacing one count changes the sum by the difference.
proof fn lemma_sum_counts_update(s: Seq<usize>, j: int, v: usize)
    requires
        0 <= j < s.len(),
    ensures
        sum_counts(s.update(j, v)) == sum_counts(s) - s[j] + v,
    decreases s.len(),
{
    if j == s.len() - 1 {
        assert(s.update(j, v).drop_last() =~= s.drop_last());
    } else {
        lemma_sum_counts_update(s.drop_last(), j, v);
        assert(s.update(j, v).drop_last() =~= s.drop_last().update(j, v));
    }
}

/// A sum of counts is non-negative.
proof fn lemma_sum_counts_nonneg(s: Seq<usize>)
    ensures
        sum_counts(s) >= 0,
    decreases s.len(),
{
    if s.len() > 0 {
        lemma_sum_counts_nonneg(s.drop_last());
    }
}

/// One more prefix element adds exactly that element to the prefix sum.
proof fn lemma_sum_counts_take_step(s: Seq<usize>, j: int)
    requires
        0 <= j < s.len(),
    ensures
        sum_counts(s.take(j + 1)) == sum_counts(s.take(j)) + s[j],
{
    assert(s.take(j + 1).drop_last() =~= s.take(j));
}

/// A prefix sum never exceeds the whole sum.
proof fn lemma_sum_counts_take_le(s: Seq<usize>, j: int)
    requires
        0 <= j <= s.len(),
    ensures
        sum_counts(s.take(j)) <= sum_counts(s),
    decreases s.len() - j,
{
    if j == s.len() {
        assert(s.take(j) =~= s);
    } else {
        lemma_sum_counts_take_step(s, j);
        lemma_sum_counts_take_le(s, j + 1);
    }
}

/// No single count exceeds the whole sum.
proof fn lemma_sum_counts_element_le(s: Seq<usize>, j: int)
    requires
        0 <= j < s.len(),
    ensures
        s[j] <= sum_counts(s),
{
    lemma_sum_counts_take_step(s, j);
    lemma_sum_counts_take_le(s, j + 1);
    lemma_sum_counts_nonneg(s.take(j));
}

/// Group the words of `words` by the feedback pattern that `guess` produces
/// against each, returning the distinct patterns in order of first
/// appearance and, for each, how many words produce it. Every word falls in
/// exactly one group, so the group sizes sum to the number of words.
pub fn pattern_groups(guess: &Vec<u8>, words: &Vec<Vec<u8>>) -> (groups: (
    Vec<Vec<Feedback>>,
    Vec<usize>,
))
    requires
        forall|i: int| 0 <= i < words@.len() ==> (#[trigger] words.deep_view()[i]).len()
            == guess@.len(),
    ensures
        groups.0.deep_view() == group_keys(guess@, words.deep_view()),
        groups.1@.len() == groups.0@.len(),
        forall|j: int| 0 <= j < groups.1@.len() ==> (#[trigger] groups.1@[j]) as nat
            == pattern_count(guess@, words.deep_view(), groups.0.deep_view()[j]),
        forall|j: int| 0 <= j < groups.1@.len() ==> 1 <= #[trigger] groups.1@[j],
        sum_counts(groups.1@) == words@.len(),
        forall|j1: int, j2: int|
            0 <= j1 < j2 < groups.0@.len() ==> groups.0.deep_view()[j1]
                != groups.0.deep_view()[j2],
{
    let ghost dv = words.deep_view();
    let mut keys: Vec<Vec<Feedback>> = Vec::new();
    let mut counts: Vec<usize> = Vec::new();
    let mut i: usize = 0;
    while i < words.len()
        invariant
            forall|k: int| 0 <= k < dv.len() ==> (#[trigger] dv[k]).len() == guess@.len(),
            dv == words.deep_view(),
            0 <= i <= dv.len(),
            keys.deep_view() == group_keys(guess@, dv.take(i as int)),
            counts@.len() == keys@.len(),
            forall|j: int| 0 <= j < counts@.len() ==> (#[trigger] counts@[j]) as nat
                == pattern_count(guess@, dv.take(i as int), keys.deep_view()[j]),
            forall|j: int| 0 <= j < counts@.len() ==> 1 <= #[trigger] counts@[j] && counts@[j]
                <= i,
            sum_counts(counts@) == i,
            forall|j1: int, j2: int|
                0 <= j1 < j2 < keys@.len() ==> keys.deep_view()[j1] != keys.deep_view()[j2],
            forall|m: int| 0 <= m < i ==> keys.deep_view().contains(
                encode_spec(guess@, #[trigger] dv[m]),
            ),
        decreases dv.len() - i,
    {
        proof {
            assert(dv[i as int].len() == guess@.len());
            assert(words@[i as int].deep_view() =~= words@[i as int]@);
        }
        let p = make_a_guess(guess, &words[i]);
        let ghost prefix = dv.take(i as int);
        proof {
            assert(prefix.push(dv[i as int]) =~= dv.take(i + 1));
        }
        // Look for an existing group with this pattern.
        let mut j: usize = 0;
        let mut found = false;
        while j < keys.len() && !found
            invariant
                0 <= i < dv.len(),
                0 <= j <= keys@.len(),
                counts@.len() == keys@.len(),
                p@ == encode_spec(guess@, dv[i as int]),
                found ==> j < keys@.len() && keys.deep_view()[j as int] == p@,
                !found ==> forall|k: int| 0 <= k < j ==> keys.deep_view()[k] != p@,
            decreases keys@.len() - j, (if found { 0int } else { 1int }),
        {
            proof {
                assert(keys@[j as int].deep_view() =~= keys@[j as int]@);
            }
            if patterns_equal(&keys[j], &p) {
                found = true;
            } else {
                j = j + 1;
            }
        }
        let ghost counts0 = counts@;
        if found {
            let c = counts[j];
            counts.set(j, c + 1);
            proof {
                let kdv = keys.deep_view();
                assert forall|k: int| 0 <= k < counts@.len() implies (#[trigger] counts@[k]) as nat
                    == pattern_count(guess@, dv.take(i + 1), kdv[k]) by {
                    lemma_pattern_count_push(guess@, prefix, dv[i as int], kdv[k]);
                }
                lemma_sum_counts_update(counts0, j as int, (c + 1) as usize);
                assert(group_keys(guess@, dv.take(i + 1)) == kdv) by {
                    assert(dv.take(i + 1).drop_last() =~= prefix);
                    assert(kdv.contains(p@));
                }
                assert(kdv.contains(encode_spec(guess@, dv[i as int])));
            }
        } else {
            let ghost kdv_before = keys.deep_view();
            keys.push(p);
            counts.push(1);
            proof {
                let kdv_old = keys.deep_view().drop_last();
                assert(kdv_old =~= group_keys(guess@, prefix));
                assert(keys@[keys@.len() - 1].deep_view() =~= p@);
                assert(keys.deep_view() =~= group_keys(guess@, prefix).push(p@)) by {
                    assert(!group_keys(guess@, prefix).contains(p@));
                }
                assert(group_keys(guess@, dv.take(i + 1)) == keys.deep_view()) by {
                    assert(dv.take(i + 1).drop_last() =~= prefix);
                    assert(!group_keys(guess@, prefix).contains(p@));
                }
                // The new pattern is new to the whole prefix, so its count was 0.
                let pred = |x: Seq<u8>| encode_spec(guess@, x) == p@;
                assert forall|m: int| 0 <= m < prefix.len() implies !pred(#[trigger] prefix[m]) by {
                    assert(keys.deep_view().drop_last().contains(encode_spec(guess@, dv[m])));
                }
                prefix.lemma_all_neg_filter_empty(pred);
                assert forall|k: int| 0 <= k < counts@.len() implies (#[trigger] counts@[k]) as nat
                    == pattern_count(guess@, dv.take(i + 1), keys.deep_view()[k]) by {
                    lemma_pattern_count_push(guess@, prefix, dv[i as int], keys.deep_view()[k]);
                }
                assert(counts@.drop_last() =~= counts0);
                assert forall|m: int| 0 <= m < i implies keys.deep_view().contains(
                    encode_spec(guess@, #[trigger] dv[m]),
                ) by {
                    let e = encode_spec(guess@, dv[m]);
                    let k = choose|k: int| 0 <= k < kdv_before.len() && kdv_before[k] == e;
                    assert(keys.deep_view()[k] == e);
                }
                assert(keys.deep_view().last() == p@);
                assert(keys.deep_view().contains(encode_spec(guess@, dv[i as int])));
            }
        }
        i = i + 1;
    }
    proof {
        assert(dv.take(dv.len() as int) =~= dv);
    }
    (keys, counts)
}

/// The sum of the group sizes of the given patterns.
pub open spec fn sum_group_counts(guess: Seq<u8>, ws: Seq<Seq<u8>>, keys: Seq<Seq<Feedback>>) -> int
    decreases keys.len(),
{
    if keys.len() == 0 {
        0
    } else {
        sum_group_counts(guess, ws, keys.drop_last()) + pattern_count(guess, ws, keys.last())
    }
}

/// Whether a sequence of patterns has no repeats.
pub open spec fn distinct_keys(keys: Seq<Seq<Feedback>>) -> bool {
    forall|i: int, j: int| 0 <= i < j < keys.len() ==> keys[i] != keys[j]
}

/// The group keys never repeat a pattern.
pub proof fn lemma_group_keys_distinct(guess: Seq<u8>, ws: Seq<Seq<u8>>)
    ensures
        distinct_keys(group_keys(guess, ws)),
    decreases ws.len(),
{
    if ws.len() > 0 {
        lemma_group_keys_distinct(guess, ws.drop_last());
        let prev = group_keys(guess, ws.drop_last());
        let p = encode_spec(guess, ws.last());
        if !prev.contains(p) {
            let keys = prev.push(p);
            assert forall|i: int, j: int| 0 <= i < j < keys.len() implies keys[i] != keys[j] by {
                if j == keys.len() - 1 {
                    assert(prev[i] == keys[i]);
                }
            }
        }
    }
}

/// Every word's pattern is among the group keys.
pub proof fn lemma_group_keys_cover(guess: Seq<u8>, ws: Seq<Seq<u8>>)
    ensures
        forall|m: int|
            0 <= m < ws.len() ==> group_keys(guess, ws).contains(
                encode_spec(guess, #[trigger] ws[m]),
            ),
    decreases ws.len(),
{
    if ws.len() > 0 {
        lemma_group_keys_cover(guess, ws.drop_last());
        let prev = group_keys(guess, ws.drop_last());
        let keys = group_keys(guess, ws);
        let p = encode_spec(guess, ws.last());
        assert forall|m: int| 0 <= m < ws.len() implies keys.contains(
            encode_spec(guess, #[trigger] ws[m]),
        ) by {
            if m < ws.len() - 1 {
                assert(ws.drop_last()[m] == ws[m]);
                let e = encode_spec(guess, ws[m]);
                let k = choose|k: int| 0 <= k < prev.len() && prev[k] == e;
                assert(keys[k] == e);
            } else {
                if prev.contains(p) {
                    let k = choose|k: int| 0 <= k < prev.len() && prev[k] == p;
                    assert(keys[k] == p);
                } else {
                    assert(keys.last() == p);
                }
            }
        }
    }
}

/// Every group key is some word's pattern, so its group is never empty.
pub proof fn lemma_group_keys_counts_positive(guess: Seq<u8>, ws: Seq<Seq<u8>>)
    ensures
        forall|k: int|
            0 <= k < group_keys(guess, ws).len() ==> pattern_count(
                guess,
                ws,
                #[trigger] group_keys(guess, ws)[k],
            ) >= 1,
    decreases ws.len(),
{
    if ws.len() > 0 {
        lemma_group_keys_counts_positive(guess, ws.drop_last());
        let prev = group_keys(guess, ws.drop_last());
        let keys = group_keys(guess, ws);
        let p = encode_spec(guess, ws.last());
        assert(ws.drop_last().push(ws.last()) =~= ws);
        assert forall|k: int| 0 <= k < keys.len() implies pattern_count(
            guess,
            ws,
            #[trigger] keys[k],
        ) >= 1 by {
            lemma_pattern_count_push(guess, ws.drop_last(), ws.last(), keys[k]);
            if k < prev.len() {
                assert(prev[k] == keys[k]);
            } else {
                assert(keys[k] == p);
            }
        }
    }
}

/// Appending one word raises the total of distinct groups' counts by one
/// exactly when its pattern is among the keys.
proof fn lemma_sum_group_counts_push(
    guess: Seq<u8>,
    ws: Seq<Seq<u8>>,
    w: Seq<u8>,
    keys: Seq<Seq<Feedback>>,
)
    requires
        distinct_keys(keys),
    ensures
        sum_group_counts(guess, ws.push(w), keys) == sum_group_counts(guess, ws, keys) + (
        if keys.contains(encode_spec(guess, w)) {
            1int
        } else {
            0int
        }),
    decreases keys.len(),
{
    let p = encode_spec(guess, w);
    if keys.len() > 0 {
        lemma_sum_group_counts_push(guess, ws, w, keys.drop_last());
        lemma_pattern_count_push(guess, ws, w, keys.last());
        if keys.last() == p {
            assert(!keys.drop_last().contains(p)) by {
                if keys.drop_last().contains(p) {
                    let i = choose|i: int|
                        0 <= i < keys.drop_last().len() && keys.drop_last()[i] == p;
                    assert(keys[i] == keys[keys.len() - 1]);
                }
            }
        } else {
            assert(keys.drop_last().contains(p) == keys.contains(p)) by {
                if keys.contains(p) {
                    let i = choose|i: int| 0 <= i < keys.len() && keys[i] == p;
                    assert(keys.drop_last()[i] == p);
                }
                if keys.drop_last().contains(p) {
                    let i = choose|i: int|
                        0 <= i < keys.drop_last().len() && keys.drop_last()[i] == p;
                    assert(keys[i] == p);
                }
            }
        }
    }
}

/// The groups partition the candidate set: their sizes sum to exactly the
/// number of candidates.
pub proof fn lemma_group_counts_total(guess: Seq<u8>, ws: Seq<Seq<u8>>)
    ensures
        sum_group_counts(guess, ws, group_keys(guess, ws)) == ws.len(),
    decreases ws.len(),
{
    if ws.len() > 0 {
        let prev_ws = ws.drop_last();
        let w = ws.last();
        let p = encode_spec(guess, w);
        let prev_keys = group_keys(guess, prev_ws);
        lemma_group_counts_total(guess, prev_ws);
        lemma_group_keys_distinct(guess, prev_ws);
        assert(prev_ws.push(w) =~= ws);
        lemma_sum_group_counts_push(guess, prev_ws, w, prev_keys);
        if !prev_keys.contains(p) {
            // One new group of size one appears.
            assert(group_keys(guess, ws) == prev_keys.push(p));
            assert(prev_keys.push(p).drop_last() =~= prev_keys);
            lemma_pattern_count_push(guess, prev_ws, w, p);
            lemma_group_keys_cover(guess, prev_ws);
            let pred = |x: Seq<u8>| encode_spec(guess, x) == p;
            assert forall|m: int| 0 <= m < prev_ws.len() implies !pred(
                #[trigger] prev_ws[m],
            ) by {
                assert(prev_keys.contains(encode_spec(guess, prev_ws[m])));
            }
            prev_ws.lemma_all_neg_filter_empty(pred);
        }
    }
}

/// The weighted logarithm sum `sum n_i * log2_fixed(n_i)` over the group
/// sizes of the given patterns.
pub open spec fn weighted_log_sum(guess: Seq<u8>, ws: Seq<Seq<u8>>, keys: Seq<Seq<Feedback>>) -> int
    decreases keys.len(),
{
    if keys.len() == 0 {
        0
    } else {
        let c = pattern_count(guess, ws, keys.last());
        weighted_log_sum(guess, ws, keys.drop_last()) + c * log2_fixed_spec(c)
    }
}

/// The fixed-point entropy score of guessing `guess` against the candidate
/// set `ws`: `N * 65536` times the Shannon entropy of the feedback-pattern
/// partition of `ws`, up to the logarithm's linear interpolation.
pub open spec fn entropy_spec(guess: Seq<u8>, ws: Seq<Seq<u8>>) -> int {
    ws.len() * log2_fixed_spec(ws.len()) - weighted_log_sum(guess, ws, group_keys(guess, ws))
}

/// The weighted logarithm sum of groups of positive size is bounded by the
/// total count times the largest logarithm.
proof fn lemma_weighted_log_sum_le(guess: Seq<u8>, ws: Seq<Seq<u8>>, keys: Seq<Seq<Feedback>>)
    requires
        ws.len() >= 1,
        forall|k: int| 0 <= k < keys.len() ==> pattern_count(guess, ws, #[trigger] keys[k]) >= 1,
    ensures
        weighted_log_sum(guess, ws, keys) <= sum_group_counts(guess, ws, keys) * log2_fixed_spec(
            ws.len(),
        ),
    decreases keys.len(),
{
    let logn = log2_fixed_spec(ws.len());
    if keys.len() == 0 {
    } else {
        lemma_weighted_log_sum_le(guess, ws, keys.drop_last());
        let c = pattern_count(guess, ws, keys.last());
        assert(c <= ws.len()) by {
            ws.lemma_filter_len(|x: Seq<u8>| encode_spec(guess, x) == keys.last());
        }
        lemma_log2_fixed_mono(c, ws.len());
        assert(c * log2_fixed_spec(c) <= c * logn) by {
            lemma_mul_left_inequality(c as int, log2_fixed_spec(c), logn);
        }
        let partial = sum_group_counts(guess, ws, keys.drop_last());
        assert(partial * logn + c * logn == (partial + c) * logn) by {
            lemma_mul_is_distributive_add_other_way(logn, partial, c as int);
        }
    }
}

/// The entropy score is never negative: the weighted logarithm sum of a
/// partition of `N` candidates never exceeds `N * log2_fixed(N)`.
pub proof fn lemma_entropy_nonneg(guess: Seq<u8>, ws: Seq<Seq<u8>>)
    ensures
        entropy_spec(guess, ws) >= 0,
{
    if ws.len() == 0 {
    } else {
        let keys = group_keys(guess, ws);
        lemma_group_keys_counts_positive(guess, ws);
        lemma_weighted_log_sum_le(guess, ws, keys);
        lemma_group_counts_total(guess, ws);
    }
}

/// Compute the fixed-point entropy score of `word` against the candidate set
/// `words`. The score is deterministic, total, and never negative.
pub fn entropy(word: &Vec<u8>, words: &Vec<Vec<u8>>) -> (r: u64)
    requires
        words@.len() < 0x1_0000_0000,
        forall|i: int| 0 <= i < words@.len() ==> (#[trigger] words.deep_view()[i]).len()
            == word@.len(),
    ensures
        r as int == entropy_spec(word@, words.deep_view()),
        entropy_spec(word@, words.deep_view()) >= 0,
{
    let ghost dv = words.deep_view();
    if words.len() == 0 {
        return 0;
    }
    let (keys, counts) = pattern_groups(word, words);
    let ghost kdv = keys.deep_view();
    let n: u64 = words.len() as u64;
    let logn = log2_fixed(n);
    proof {
        lemma_log2_fixed_upper(n as nat);
        assert(n * logn <= 0xFFFF_FFFF * 2162687) by {
            lemma_mul_upper_bound(n as int, 0xFFFF_FFFF, logn as int, 2162687);
        }
    }
    let total: u64 = n * logn;
    let mut acc: u64 = 0;
    let mut j: usize = 0;
    while j < counts.len()
        invariant
            dv == words.deep_view(),
            kdv == keys.deep_view(),
            1 <= dv.len() < 0x1_0000_0000,
            n == dv.len(),
            logn as int == log2_fixed_spec(n as nat),
            logn < 33 * 65536,
            total == n * logn,
            counts@.len() == keys@.len(),
            0 <= j <= counts@.len(),
            forall|k: int| 0 <= k < counts@.len() ==> (#[trigger] counts@[k]) as nat
                == pattern_count(word@, dv, kdv[k]),
            forall|k: int| 0 <= k < counts@.len() ==> 1 <= #[trigger] counts@[k],
            sum_counts(counts@) == dv.len(),
            acc as int == weighted_log_sum(word@, dv, kdv.take(j as int)),
            acc <= sum_counts(counts@.take(j as int)) * logn,
        decreases counts@.len() - j,
    {
        proof {
            lemma_sum_counts_element_le(counts@, j as int);
            lemma_sum_counts_nonneg(counts@.take(j as int));
        }
        let c: u64 = counts[j] as u64;
        let logc = log2_fixed(c);
        proof {
            lemma_log2_fixed_mono(c as nat, n as nat);
            assert(c * logc <= c * logn) by {
                lemma_mul_left_inequality(c as int, logc as int, logn as int);
            }
            assert(acc + c * logc <= sum_counts(counts@.take(j + 1)) * logn) by {
                lemma_sum_counts_take_step(counts@, j as int);
                lemma_mul_is_distributive_add_other_way(
                    logn as int,
                    sum_counts(counts@.take(j as int)),
                    c as int,
                );
            }
            assert(sum_counts(counts@.take(j + 1)) * logn <= n * logn) by {
                lemma_sum_counts_take_le(counts@, j + 1);
                lemma_mul_inequality(sum_counts(counts@.take(j + 1)), n as int, logn as int);
            }
            assert(kdv.take(j + 1).drop_last() =~= kdv.take(j as int));
        }
        acc = acc + c * logc;
        j = j + 1;
    }
    proof {
        assert(kdv.take(kdv.len() as int) =~= kdv);
        assert(counts@.take(counts@.len() as int) =~= counts@);
    }
    total - acc
}

} // verus!
