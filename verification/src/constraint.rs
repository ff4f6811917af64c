//! The constraint accumulator used by the overlap-based variant: feedback
//! from successive guesses is merged into one persistent constraint state,
//! which only ever grows within a game. Letters known to appear, letters
//! known to be absent, positions known to be right, and positions known to
//! be wrong are tracked separately. Letter presence is recorded as a plain
//! containment fact, without per-letter multiplicity accounting.

use vstd::prelude::*;

verus! {

/// The mathematical content of a constraint state.
pub struct ConstraintModel {
    /// Letters known to appear somewhere in the answer.
    pub required: Seq<u8>,
    /// Letters known not to appear anywhere in the answer.
    pub excluded: Seq<u8>,
    /// Positions whose letter is known.
    pub fixed: Seq<(usize, u8)>,
    /// Position/letter pairs known to be wrong at that position.
    pub forbidden: Seq<(usize, u8)>,
}

/// Everything learned so far in one game: the accumulator grows with each
/// merged guess and is discarded when the game ends.
pub struct ConstraintState {
    pub required: Vec<u8>,
    pub excluded: Vec<u8>,
    pub fixed: Vec<(usize, u8)>,
    pub forbidden: Vec<(usize, u8)>,
}

impl View for ConstraintState {
    type V = ConstraintModel;

    open spec fn view(&self) -> ConstraintModel {
        ConstraintModel {
            required: self.required@,
            excluded: self.excluded@,
            fixed: self.fixed@,
            forbidden: self.forbidden@,
        }
    }
}

/// The state holding no constraints at all.
pub open spec fn empty_model() -> ConstraintModel {
    ConstraintModel {
        required: Seq::empty(),
        excluded: Seq::empty(),
        fixed: Seq::empty(),
        forbidden: Seq::empty(),
    }
}

/// Each position of `g`, paired with its letter.
pub open spec fn position_pairs(g: Seq<u8>) -> Seq<(usize, u8)> {
    Seq::new(g.len(), |i: int| (i as usize, g[i]))
}

/// What one guess against one answer adds to a prior state: every guessed
/// letter lands in `required` or `excluded` by whether the answer contains
/// it anywhere, and every position lands in `fixed` or `forbidden` by
/// whether it matches exactly.
pub open spec fn merge_spec(g: Seq<u8>, a: Seq<u8>, prior: ConstraintModel) -> ConstraintModel {
    ConstraintModel {
        required: prior.required + g.filter(|c: u8| a.contains(c)),
        excluded: prior.excluded + g.filter(|c: u8| !a.contains(c)),
        fixed: prior.fixed + position_pairs(g).filter(
            |p: (usize, u8)| a[p.0 as int] == p.1,
        ),
        forbidden: prior.forbidden + position_pairs(g).filter(
            |p: (usize, u8)| a[p.0 as int] != p.1,
        ),
    }
}

/// Whether `w` satisfies every constraint of `m`: it holds all required
/// letters, none of the excluded ones, matches every fixed position, and
/// avoids every forbidden one.
pub open spec fn is_valid_spec(w: Seq<u8>, m: ConstraintModel) -> bool {
    &&& forall|i: int| 0 <= i < m.required.len() ==> w.contains(#[trigger] m.required[i])
    &&& forall|i: int| 0 <= i < m.excluded.len() ==> !w.contains(#[trigger] m.excluded[i])
    &&& forall|i: int|
        0 <= i < m.fixed.len() ==> (#[trigger] m.fixed[i]).0 < w.len() && w[m.fixed[i].0 as int]
            == m.fixed[i].1
    &&& forall|i: int|
        0 <= i < m.forbidden.len() ==> !((#[trigger] m.forbidden[i]).0 < w.len()
            && w[m.forbidden[i].0 as int] == m.forbidden[i].1)
}

/// Create the empty constraint state a game starts from.
pub fn empty_state() -> (r: ConstraintState)
    ensures
        r@ == empty_model(),
{
    let r = ConstraintState {
        required: Vec::new(),
        excluded: Vec::new(),
        fixed: Vec::new(),
        forbidden: Vec::new(),
    };
    proof {
        assert(r@.required =~= empty_model().required);
        assert(r@.excluded =~= empty_model().excluded);
        assert(r@.fixed =~= empty_model().fixed);
        assert(r@.forbidden =~= empty_model().forbidden);
    }
    r
}

/// Merge the feedback of one guess against the true answer into the prior
/// state, returning a new state that holds the union of prior and new
/// information. The accumulator never shrinks.
pub fn merge(guess: &Vec<u8>, answer: &Vec<u8>, prior: &ConstraintState) -> (r: ConstraintState)
    requires
        guess@.len() == answer@.len(),
    ensures
        r@ == merge_spec(guess@, answer@, prior@),
{
    let mut required = crate::filter::clone_word(&prior.required);
    let mut excluded = crate::filter::clone_word(&prior.excluded);
    let mut fixed = clone_pairs(&prior.fixed);
    let mut forbidden = clone_pairs(&prior.forbidden);
    let ghost req_pred = |c: u8| answer@.contains(c);
    let ghost exc_pred = |c: u8| !answer@.contains(c);
    let ghost fix_pred = |p: (usize, u8)| answer@[p.0 as int] == p.1;
    let ghost forb_pred = |p: (usize, u8)| answer@[p.0 as int] != p.1;
    let mut i: usize = 0;
    while i < guess.len()
        invariant
            guess@.len() == answer@.len(),
            0 <= i <= guess@.len(),
            required@ == prior.required@ + guess@.take(i as int).filter(req_pred),
            excluded@ == prior.excluded@ + guess@.take(i as int).filter(exc_pred),
            fixed@ == prior.fixed@ + position_pairs(guess@).take(i as int).filter(fix_pred),
            forbidden@ == prior.forbidden@ + position_pairs(guess@).take(i as int).filter(
                forb_pred,
            ),
            req_pred == (|c: u8| answer@.contains(c)),
            exc_pred == (|c: u8| !answer@.contains(c)),
            fix_pred == (|p: (usize, u8)| answer@[p.0 as int] == p.1),
            forb_pred == (|p: (usize, u8)| answer@[p.0 as int] != p.1),
        decreases guess@.len() - i,
    {
        proof {
            assert(guess@.take(i + 1) =~= guess@.take(i as int).push(guess@[i as int]));
            guess@.take(i as int).lemma_filter_push(guess@[i as int], req_pred);
            guess@.take(i as int).lemma_filter_push(guess@[i as int], exc_pred);
            let pp = position_pairs(guess@);
            assert(pp.take(i + 1) =~= pp.take(i as int).push((i as usize, guess@[i as int])));
            pp.take(i as int).lemma_filter_push((i as usize, guess@[i as int]), fix_pred);
            pp.take(i as int).lemma_filter_push((i as usize, guess@[i as int]), forb_pred);
        }
        if crate::pattern::contains_byte(answer, guess[i]) {
            required.push(guess[i]);
        } else {
            excluded.push(guess[i]);
        }
        if guess[i] == answer[i] {
            fixed.push((i, guess[i]));
        } else {
            forbidden.push((i, guess[i]));
        }
        i = i + 1;
    }
    let r = ConstraintState { required, excluded, fixed, forbidden };
    proof {
        assert(guess@.take(guess@.len() as int) =~= guess@);
        assert(position_pairs(guess@).take(guess@.len() as int) =~= position_pairs(guess@));
    }
    r
}

/// Copy a list of position/letter pairs.
fn clone_pairs(v: &Vec<(usize, u8)>) -> (r: Vec<(usize, u8)>)
    ensures
        r@ == v@,
{
    let mut r: Vec<(usize, u8)> = Vec::new();
    let mut i: usize = 0;
    while i < v.len()
        invariant
            0 <= i <= v@.len(),
            r@ == v@.take(i as int),
        decreases v@.len() - i,
    {
        let (p, c) = v[i];
        r.push((p, c));
        proof {
            assert(r@ =~= v@.take(i + 1));
        }
        i = i + 1;
    }
    proof {
        assert(v@.take(v@.len() as int) =~= v@);
    }
    r
}

/// Decide whether `word` satisfies every constraint of `state`.
pub fn is_valid(word: &Vec<u8>, state: &ConstraintState) -> (r: bool)
    ensures
        r == is_valid_spec(word@, state@),
{
    let mut i: usize = 0;
    while i < state.required.len()
        invariant
            0 <= i <= state.required@.len(),
            forall|j: int| 0 <= j < i ==> word@.contains(#[trigger] state.required@[j]),
        decreases state.required@.len() - i,
    {
        if !crate::pattern::contains_byte(word, state.required[i]) {
            proof {
                assert(!word@.contains(state@.required[i as int]));
            }
            return false;
        }
        i = i + 1;
    }
    let mut i: usize = 0;
    while i < state.excluded.len()
        invariant
            0 <= i <= state.excluded@.len(),
            forall|j: int| 0 <= j < i ==> !word@.contains(#[trigger] state.excluded@[j]),
        decreases state.excluded@.len() - i,
    {
        if crate::pattern::contains_byte(word, state.excluded[i]) {
            proof {
                assert(word@.contains(state@.excluded[i as int]));
            }
            return false;
        }
        i = i + 1;
    }
    let mut i: usize = 0;
    while i < state.fixed.len()
        invariant
            0 <= i <= state.fixed@.len(),
            forall|j: int|
                0 <= j < i ==> (#[trigger] state.fixed@[j]).0 < word@.len()
                    && word@[state.fixed@[j].0 as int] == state.fixed@[j].1,
        decreases state.fixed@.len() - i,
    {
        let (p, c) = state.fixed[i];
        if p >= word.len() || word[p] != c {
            proof {
                assert(state@.fixed[i as int] == (p, c));
            }
            return false;
        }
        i = i + 1;
    }
    let mut i: usize = 0;
    while i < state.forbidden.len()
        invariant
            0 <= i <= state.forbidden@.len(),
            forall|j: int|
                0 <= j < i ==> !((#[trigger] state.forbidden@[j]).0 < word@.len()
                    && word@[state.forbidden@[j].0 as int] == state.forbidden@[j].1),
        decreases state.forbidden@.len() - i,
    {
        let (p, c) = state.forbidden[i];
        if p < word.len() && word[p] == c {
            proof {
                assert(state@.forbidden[i as int] == (p, c));
            }
            return false;
        }
        i = i + 1;
    }
    true
}

/// Apply `is_valid` to every word of a candidate list, keeping the
/// survivors in their original order.
pub fn filter_all(words: &Vec<Vec<u8>>, state: &ConstraintState) -> (r: Vec<Vec<u8>>)
    ensures
        r.deep_view() == words.deep_view().filter(
            (|w: Seq<u8>| is_valid_spec(w, state@)),
        ),
        r@.len() <= words@.len(),
{
    let ghost dv = words.deep_view();
    let ghost pred = |w: Seq<u8>| is_valid_spec(w, state@);
    let mut r: Vec<Vec<u8>> = Vec::new();
    let mut i: usize = 0;
    while i < words.len()
        invariant
            dv == words.deep_view(),
            0 <= i <= dv.len(),
            pred == (|w: Seq<u8>| is_valid_spec(w, state@)),
            r.deep_view() == dv.take(i as int).filter(pred),
            r@.len() <= i,
        decreases dv.len() - i,
    {
        proof {
            assert(words@[i as int].deep_view() =~= words@[i as int]@);
            assert(dv.take(i as int).push(dv[i as int]) =~= dv.take(i + 1));
            dv.take(i as int).lemma_filter_push(dv[i as int], pred);
        }
        if is_valid(&words[i], state) {
            let ghost old_r = r.deep_view();
            r.push(crate::filter::clone_word(&words[i]));
            proof {
                assert(r.deep_view() =~= old_r.push(dv[i as int]));
            }
        }
        i = i + 1;
    }
    proof {
        assert(dv.take(dv.len() as int) =~= dv);
    }
    r
}

/// A state is sound for an answer when every constraint in it is a true
/// fact about that answer. Merging feedback derived from the answer itself
/// only ever adds true facts, so soundness is the accumulator's invariant.
pub open spec fn sound_for(a: Seq<u8>, m: ConstraintModel) -> bool {
    &&& forall|i: int| 0 <= i < m.required.len() ==> a.contains(#[trigger] m.required[i])
    &&& forall|i: int| 0 <= i < m.excluded.len() ==> !a.contains(#[trigger] m.excluded[i])
    &&& forall|i: int|
        0 <= i < m.fixed.len() ==> (#[trigger] m.fixed[i]).0 < a.len() && a[m.fixed[i].0 as int]
            == m.fixed[i].1
    &&& forall|i: int|
        0 <= i < m.forbidden.len() ==> (#[trigger] m.forbidden[i]).0 < a.len()
            && a[m.forbidden[i].0 as int] != m.forbidden[i].1
}

/// The empty state is sound for any answer.
pub proof fn lemma_empty_sound(a: Seq<u8>)
    ensures
        sound_for(a, empty_model()),
{
}

/// Merging a guess's feedback against the answer preserves soundness for
/// that answer.
pub proof fn lemma_merge_preserves_sound(g: Seq<u8>, a: Seq<u8>, prior: ConstraintModel)
    requires
        g.len() == a.len(),
        sound_for(a, prior),
    ensures
        sound_for(a, merge_spec(g, a, prior)),
{
    let m = merge_spec(g, a, prior);
    let req_pred = |c: u8| a.contains(c);
    let exc_pred = |c: u8| !a.contains(c);
    let fix_pred = |p: (usize, u8)| a[p.0 as int] == p.1;
    let forb_pred = |p: (usize, u8)| a[p.0 as int] != p.1;
    assert forall|i: int| 0 <= i < m.required.len() implies a.contains(#[trigger] m.required[i]) by {
        if i >= prior.required.len() {
            g.lemma_filter_pred(req_pred, i - prior.required.len());
        }
    }
    assert forall|i: int| 0 <= i < m.excluded.len() implies !a.contains(
        #[trigger] m.excluded[i],
    ) by {
        if i >= prior.excluded.len() {
            g.lemma_filter_pred(exc_pred, i - prior.excluded.len());
        }
    }
    let pp = position_pairs(g);
    assert forall|i: int| 0 <= i < m.fixed.len() implies (#[trigger] m.fixed[i]).0 < a.len()
        && a[m.fixed[i].0 as int] == m.fixed[i].1 by {
        if i >= prior.fixed.len() {
            let k = i - prior.fixed.len();
            pp.lemma_filter_pred(fix_pred, k);
            let e = pp.filter(fix_pred)[k];
            assert(pp.filter(fix_pred).contains(e));
            pp.lemma_filter_contains_rev(fix_pred, e);
            let j = choose|j: int| 0 <= j < pp.len() && pp[j] == e;
            assert(pp[j] == e);
            assert(e.0 < a.len());
        }
    }
    assert forall|i: int| 0 <= i < m.forbidden.len() implies (#[trigger] m.forbidden[i]).0
        < a.len() && a[m.forbidden[i].0 as int] != m.forbidden[i].1 by {
        if i >= prior.forbidden.len() {
            let k = i - prior.forbidden.len();
            pp.lemma_filter_pred(forb_pred, k);
            let e = pp.filter(forb_pred)[k];
            assert(pp.filter(forb_pred).contains(e));
            pp.lemma_filter_contains_rev(forb_pred, e);
            let j = choose|j: int| 0 <= j < pp.len() && pp[j] == e;
            assert(pp[j] == e);
            assert(e.0 < a.len());
        }
    }
}

/// A sound state validates the answer it was learned from.
pub proof fn lemma_sound_is_valid(a: Seq<u8>, m: ConstraintModel)
    requires
        sound_for(a, m),
    ensures
        is_valid_spec(a, m),
{
}

/// The constraint state accumulated by merging each guess of `guesses`, in
/// order, against `answer`, starting from the empty state.
pub open spec fn accumulated(answer: Seq<u8>, guesses: Seq<Seq<u8>>) -> ConstraintModel
    decreases guesses.len(),
{
    if guesses.len() == 0 {
        empty_model()
    } else {
        merge_spec(guesses.last(), answer, accumulated(answer, guesses.drop_last()))
    }
}

/// Self-consistency: after any sequence of guesses of the answer's length
/// is merged against the answer — in particular, immediately after the last
/// guess of a solved game — the accumulated state still validates the
/// answer itself.
pub proof fn lemma_accumulated_validates_answer(answer: Seq<u8>, guesses: Seq<Seq<u8>>)
    requires
        forall|i: int| 0 <= i < guesses.len() ==> (#[trigger] guesses[i]).len() == answer.len(),
    ensures
        sound_for(answer, accumulated(answer, guesses)),
        is_valid_spec(answer, accumulated(answer, guesses)),
    decreases guesses.len(),
{
    if guesses.len() == 0 {
        lemma_empty_sound(answer);
    } else {
        lemma_accumulated_validates_answer(answer, guesses.drop_last());
        lemma_merge_preserves_sound(
            guesses.last(),
            answer,
            accumulated(answer, guesses.drop_last()),
        );
    }
    lemma_sound_is_valid(answer, accumulated(answer, guesses));
}

} // verus!
