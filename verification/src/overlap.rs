//! The letter-overlap scoring rule: a simpler alternative to entropy
//! scoring. The overlap of two words counts the distinct letters they share,
//! ignoring positions; a word's total score against a candidate set sums its
//! overlap with every candidate.

use vstd::prelude::*;
use crate::pattern::contains_byte;

verus! {

/// The number of distinct letters shared by `a` and `b`: each letter of `a`
/// counts once, at its first occurrence, when it occurs anywhere in `b`.
pub open spec fn overlap_spec(a: Seq<u8>, b: Seq<u8>) -> nat
    decreases a.len(),
{
    if a.len() == 0 {
        0
    } else {
        overlap_spec(a.drop_last(), b) + if b.contains(a.last()) && !a.drop_last().contains(
            a.last(),
        ) {
            1nat
        } else {
            0nat
        }
    }
}

/// The overlap never exceeds the length of the first word.
pub proof fn lemma_overlap_le_len(a: Seq<u8>, b: Seq<u8>)
    ensures
        overlap_spec(a, b) <= a.len(),
    decreases a.len(),
{
    if a.len() > 0 {
        lemma_overlap_le_len(a.drop_last(), b);
    }
}

/// The sum of `overlap_spec(w, c)` over every candidate `c` of `ws`,
/// including `w` itself when it is among them.
pub open spec fn total_overlap_spec(w: Seq<u8>, ws: Seq<Seq<u8>>) -> nat
    decreases ws.len(),
{
    if ws.len() == 0 {
        0
    } else {
        total_overlap_spec(w, ws.drop_last()) + overlap_spec(w, ws.last())
    }
}

/// Whether `b` occurs among the first `n` letters of `word`.
fn prefix_contains(word: &Vec<u8>, n: usize, b: u8) -> (r: bool)
    requires
        n <= word@.len(),
    ensures
        r == word@.take(n as int).contains(b),
{
    let mut i: usize = 0;
    while i < n
        invariant
            0 <= i <= n <= word@.len(),
            forall|j: int| 0 <= j < i ==> word@[j] != b,
        decreases n - i,
    {
        if word[i] == b {
            assert(word@.take(n as int)[i as int] == b);
            return true;
        }
        i = i + 1;
    }
    assert(forall|j: int| 0 <= j < n ==> word@.take(n as int)[j] != b);
    false
}

/// Count the distinct letters shared by `a` and `b`.
pub fn overlap(a: &Vec<u8>, b: &Vec<u8>) -> (r: usize)
    ensures
        r as nat == overlap_spec(a@, b@),
{
    let mut count: usize = 0;
    let mut i: usize = 0;
    while i < a.len()
        invariant
            0 <= i <= a@.len(),
            count as nat == overlap_spec(a@.take(i as int), b@),
            count <= i,
        decreases a@.len() - i,
    {
        proof {
            assert(a@.take(i + 1).drop_last() =~= a@.take(i as int));
            assert(a@.take(i + 1).last() == a@[i as int]);
        }
        if contains_byte(b, a[i]) && !prefix_contains(a, i, a[i]) {
            count = count + 1;
        }
        i = i + 1;
    }
    proof {
        assert(a@.take(a@.len() as int) =~= a@);
    }
    count
}

/// Sum the overlap of `w` with every candidate of `ws`.
pub fn total_overlap(w: &Vec<u8>, ws: &Vec<Vec<u8>>) -> (r: u64)
    requires
        ws@.len() * w@.len() <= u64::MAX,
    ensures
        r as nat == total_overlap_spec(w@, ws.deep_view()),
{
    let ghost dv = ws.deep_view();
    let mut r: u64 = 0;
    let mut i: usize = 0;
    while i < ws.len()
        invariant
            dv == ws.deep_view(),
            dv.len() * w@.len() <= u64::MAX,
            0 <= i <= dv.len(),
            r as nat == total_overlap_spec(w@, dv.take(i as int)),
            r <= i * w@.len(),
        decreases dv.len() - i,
    {
        proof {
            assert(ws@[i as int].deep_view() =~= ws@[i as int]@);
            assert(dv.take(i + 1).drop_last() =~= dv.take(i as int));
            assert(dv.take(i + 1).last() == dv[i as int]);
            lemma_overlap_le_len(w@, dv[i as int]);
            assert(i * w@.len() + w@.len() == (i + 1) * w@.len()) by {
                vstd::arithmetic::mul::lemma_mul_is_distributive_add_other_way(
                    w@.len() as int,
                    i as int,
                    1,
                );
            }
            assert((i + 1) * w@.len() <= dv.len() * w@.len()) by {
                vstd::arithmetic::mul::lemma_mul_inequality(
                    i + 1,
                    dv.len() as int,
                    w@.len() as int,
                );
            }
        }
        let o = overlap(w, &ws[i]);
        r = r + o as u64;
        i = i + 1;
    }
    proof {
        assert(dv.take(dv.len() as int) =~= dv);
    }
    r
}

} // verus!
