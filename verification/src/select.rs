//! Guess selection: the highest-scoring candidate under the active scoring
//! rule, with ties broken deterministically in favour of the earliest
//! candidate. Selecting from an empty candidate set is an explicit error: it
//! signals a contradiction in the accumulated constraints.

use vstd::prelude::*;
use crate::entropy::{entropy, entropy_spec};
use crate::filter::clone_word;
use crate::overlap::{total_overlap, total_overlap_spec, lemma_overlap_le_len};

verus! {

/// Why a solver operation could not proceed.
#[derive(Clone, Copy, Debug, PartialEq, Eq, Structural)]
pub enum SolverError {
    /// The candidate set is empty: the accumulated constraints contradict
    /// every word, which correct feedback can never cause.
    EmptyCandidates,
    /// The words in play do not all share one length.
    LengthMismatch,
}

/// The index of the entropy-maximal word among the first `n` candidates,
/// earliest first on ties.
pub open spec fn best_entropy_index(ws: Seq<Seq<u8>>, n: int) -> int
    decreases n,
{
    if n <= 1 {
        0
    } else {
        let prev = best_entropy_index(ws, n - 1);
        if entropy_spec(ws[n - 1], ws) > entropy_spec(ws[prev], ws) {
            n - 1
        } else {
            prev
        }
    }
}

/// The word the entropy rule selects: the first candidate of maximal
/// entropy score against the whole candidate set.
pub open spec fn best_guess_spec(ws: Seq<Seq<u8>>) -> Seq<u8> {
    ws[best_entropy_index(ws, ws.len() as int)]
}

/// The running argmax stays in range, beats everything before `n`, and is
/// the earliest index to do so.
proof fn lemma_best_entropy_index_props(ws: Seq<Seq<u8>>, n: int)
    requires
        1 <= n <= ws.len(),
    ensures
        0 <= best_entropy_index(ws, n) < n,
        forall|i: int| 0 <= i < n ==> entropy_spec(#[trigger] ws[i], ws) <= entropy_spec(
            ws[best_entropy_index(ws, n)],
            ws,
        ),
        forall|i: int| 0 <= i < best_entropy_index(ws, n) ==> entropy_spec(#[trigger] ws[i], ws)
            < entropy_spec(ws[best_entropy_index(ws, n)], ws),
    decreases n,
{
    if n > 1 {
        lemma_best_entropy_index_props(ws, n - 1);
    }
}

/// Select the best guess under the entropy rule: the earliest candidate
/// whose entropy score against the whole candidate set is maximal. Fails
/// exactly on an empty candidate set.
pub fn best_guess(words: &Vec<Vec<u8>>) -> (r: Result<Vec<u8>, SolverError>)
    requires
        words@.len() < 0x1_0000_0000,
        forall|i: int, j: int|
            0 <= i < words@.len() && 0 <= j < words@.len() ==> (#[trigger] words.deep_view()[i]).len()
                == (#[trigger] words.deep_view()[j]).len(),
    ensures
        match r {
            Ok(w) => {
                let dv = words.deep_view();
                &&& words@.len() > 0
                &&& w@ == best_guess_spec(dv)
                &&& dv.contains(w@)
                &&& forall|i: int|
                    0 <= i < dv.len() ==> entropy_spec(#[trigger] dv[i], dv) <= entropy_spec(
                        w@,
                        dv,
                    )
            },
            Err(e) => words@.len() == 0 && e == SolverError::EmptyCandidates,
        },
{
    let ghost dv = words.deep_view();
    if words.len() == 0 {
        return Err(SolverError::EmptyCandidates);
    }
    proof {
        assert(words@[0].deep_view() =~= words@[0]@);
        assert forall|k: int| 0 <= k < dv.len() implies (#[trigger] dv[k]).len()
            == words@[0]@.len() by {
            assert(dv[k].len() == dv[0].len());
        }
    }
    let mut best_idx: usize = 0;
    let mut best_score: u64 = entropy(&words[0], words);
    let mut i: usize = 1;
    while i < words.len()
        invariant
            dv == words.deep_view(),
            1 <= dv.len() < 0x1_0000_0000,
            forall|k: int, l: int|
                0 <= k < dv.len() && 0 <= l < dv.len() ==> (#[trigger] dv[k]).len()
                    == (#[trigger] dv[l]).len(),
            1 <= i <= dv.len(),
            best_idx < i,
            best_idx == best_entropy_index(dv, i as int),
            best_score as int == entropy_spec(dv[best_idx as int], dv),
        decreases dv.len() - i,
    {
        proof {
            assert(words@[i as int].deep_view() =~= words@[i as int]@);
            assert forall|k: int| 0 <= k < dv.len() implies (#[trigger] dv[k]).len()
                == words@[i as int]@.len() by {
                assert(dv[k].len() == dv[i as int].len());
            }
        }
        let score = entropy(&words[i], words);
        if score > best_score {
            best_idx = i;
            best_score = score;
        }
        i = i + 1;
    }
    proof {
        lemma_best_entropy_index_props(dv, dv.len() as int);
        assert(words@[best_idx as int].deep_view() =~= words@[best_idx as int]@);
        assert(dv.contains(dv[best_idx as int]));
    }
    Ok(clone_word(&words[best_idx]))
}

/// The index of the overlap-maximal word among the first `n` candidates,
/// earliest first on ties.
pub open spec fn best_overlap_index(ws: Seq<Seq<u8>>, n: int) -> int
    decreases n,
{
    if n <= 1 {
        0
    } else {
        let prev = best_overlap_index(ws, n - 1);
        if total_overlap_spec(ws[n - 1], ws) > total_overlap_spec(ws[prev], ws) {
            n - 1
        } else {
            prev
        }
    }
}

/// The word the overlap rule selects: the first candidate of maximal total
/// overlap with the whole candidate set.
pub open spec fn best_overlap_spec(ws: Seq<Seq<u8>>) -> Seq<u8> {
    ws[best_overlap_index(ws, ws.len() as int)]
}

/// As for the entropy rule: in range, maximal, and earliest.
proof fn lemma_best_overlap_index_props(ws: Seq<Seq<u8>>, n: int)
    requires
        1 <= n <= ws.len(),
    ensures
        0 <= best_overlap_index(ws, n) < n,
        forall|i: int| 0 <= i < n ==> total_overlap_spec(#[trigger] ws[i], ws)
            <= total_overlap_spec(ws[best_overlap_index(ws, n)], ws),
        forall|i: int|
            0 <= i < best_overlap_index(ws, n) ==> total_overlap_spec(#[trigger] ws[i], ws)
                < total_overlap_spec(ws[best_overlap_index(ws, n)], ws),
    decreases n,
{
    if n > 1 {
        lemma_best_overlap_index_props(ws, n - 1);
    }
}

/// Select the best guess under the overlap rule: the earliest candidate
/// whose total overlap with the whole candidate set is maximal. Fails
/// exactly on an empty candidate set.
pub fn best_guess_overlap(words: &Vec<Vec<u8>>) -> (r: Result<Vec<u8>, SolverError>)
    requires
        words@.len() < 0x1_0000_0000,
        forall|i: int, j: int|
            0 <= i < words@.len() && 0 <= j < words@.len() ==> (#[trigger] words.deep_view()[i]).len()
                == (#[trigger] words.deep_view()[j]).len(),
        forall|i: int| 0 <= i < words@.len() ==> (#[trigger] words.deep_view()[i]).len()
            < 0x1_0000_0000,
    ensures
        match r {
            Ok(w) => {
                let dv = words.deep_view();
                &&& words@.len() > 0
                &&& w@ == best_overlap_spec(dv)
                &&& dv.contains(w@)
                &&& forall|i: int|
                    0 <= i < dv.len() ==> total_overlap_spec(#[trigger] dv[i], dv)
                        <= total_overlap_spec(w@, dv)
            },
            Err(e) => words@.len() == 0 && e == SolverError::EmptyCandidates,
        },
{
    let ghost dv = words.deep_view();
    if words.len() == 0 {
        return Err(SolverError::EmptyCandidates);
    }
    proof {
        assert(words@[0].deep_view() =~= words@[0]@);
        assert(dv.len() * dv[0].len() <= u64::MAX) by {
            vstd::arithmetic::mul::lemma_mul_upper_bound(
                dv.len() as int,
                0xFFFF_FFFF,
                dv[0].len() as int,
                0xFFFF_FFFF,
            );
        }
    }
    let mut best_idx: usize = 0;
    let mut best_score: u64 = total_overlap(&words[0], words);
    let mut i: usize = 1;
    while i < words.len()
        invariant
            dv == words.deep_view(),
            1 <= dv.len() < 0x1_0000_0000,
            forall|k: int, l: int|
                0 <= k < dv.len() && 0 <= l < dv.len() ==> (#[trigger] dv[k]).len()
                    == (#[trigger] dv[l]).len(),
            forall|k: int| 0 <= k < dv.len() ==> (#[trigger] dv[k]).len() < 0x1_0000_0000,
            1 <= i <= dv.len(),
            best_idx < i,
            best_idx == best_overlap_index(dv, i as int),
            best_score as nat == total_overlap_spec(dv[best_idx as int], dv),
        decreases dv.len() - i,
    {
        proof {
            assert(words@[i as int].deep_view() =~= words@[i as int]@);
            assert(dv.len() * dv[i as int].len() <= u64::MAX) by {
                vstd::arithmetic::mul::lemma_mul_upper_bound(
                    dv.len() as int,
                    0xFFFF_FFFF,
                    dv[i as int].len() as int,
                    0xFFFF_FFFF,
                );
            }
        }
        let score = total_overlap(&words[i], words);
        if score > best_score {
            best_idx = i;
            best_score = score;
        }
        i = i + 1;
    }
    proof {
        lemma_best_overlap_index_props(dv, dv.len() as int);
        assert(words@[best_idx as int].deep_view() =~= words@[best_idx as int]@);
        assert(dv.contains(dv[best_idx as int]));
    }
    Ok(clone_word(&words[best_idx]))
}

} // verus!
