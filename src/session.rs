//! A solving session: the full word list, the words that may still be the
//! answer, and the words that guesses are drawn from.
use vstd::prelude::*;

use crate::clue::{
    expected_hint, expected_hints, expected_occur, holds, is_clue_of, sorted_letters_of, Clue,
    Hint,
};
use crate::dictionary::{
    agrees, frequency_of, is_first_best, keep, lemma_keep_agree, lemma_keep_all, lemma_keep_keep,
    lemma_keep_len, scores, sorted_by_score, stable_order, Dictionary,
};
use crate::word::{is_lower_word, is_lowercase_word, is_word, satisfies, satisfies_hints, Word};
use crate::{count_upto, WORD_LEN};

verus! {

/// What the solver says next.
#[derive(Clone, Debug)]
pub enum Guess {
    /// No word agrees with the feedback given so far.
    NoCandidates,
    /// Exactly one word is left: it is the answer.
    Solved(Word),
    /// The word to guess next.
    Suggest(Word),
}

/// Why a feedback report was refused.
#[derive(Clone, Copy, Debug, PartialEq, Eq, Structural)]
pub enum InputError {
    /// The guess or the feedback does not have `WORD_LEN` characters.
    LengthMismatch,
    /// The guess holds a character that is not a lowercase letter.
    InvalidCharacter,
}

/// The state of a session.
#[derive(Clone, Debug)]
pub struct State {
    /// The full word list.
    pub all_words: Dictionary,
    /// The words that may still be the answer.
    pub valid_words: Dictionary,
    /// The words that guesses are drawn from, fixed at each reset.
    pub valid_guesses: Dictionary,
}

/// The report `f` on guess `g` rules nothing out of word `w`: `w` agrees with
/// the clue of every letter of the guess.
pub open spec fn consistent(w: Seq<char>, g: Seq<char>, f: Seq<char>) -> bool {
    forall|i: int|
        0 <= i < WORD_LEN ==> satisfies_hints(
            w,
            #[trigger] g[i],
            expected_occur(g, f, g[i]),
            expected_hints(g, f, g[i]),
        )
}

/// The predicate "the report `f` on guess `g` rules nothing out".
pub open spec fn consistent_with(g: Seq<char>, f: Seq<char>) -> spec_fn(Seq<char>) -> bool {
    |w: Seq<char>| consistent(w, g, f)
}

/// The predicate "begins with `c`".
pub open spec fn starts_with(c: char) -> spec_fn(Seq<char>) -> bool {
    |w: Seq<char>| w[0] == c
}

/// The report `f` on guess `g` settles letter `c` at every position.
pub open spec fn report_resolves(g: Seq<char>, f: Seq<char>, c: char) -> bool {
    forall|i: int| 0 <= i < WORD_LEN ==> expected_hint(g, f, c, i) != Hint::Maybe
}

/// The predicate "the report `f` on guess `g` settles the letter".
pub open spec fn settled_by(g: Seq<char>, f: Seq<char>) -> spec_fn(char) -> bool {
    |c: char| report_resolves(g, f, c)
}

/// `r` is the guess owed when `answers` may still be the answer, and the guess
/// pool went from `before` to `after`: nothing when no word is left, the one
/// word left, or else the earliest of the best-scoring words of the pool, which
/// is reordered by non-increasing score against the frequencies of `answers`.
pub open spec fn is_next_guess(
    answers: Dictionary,
    before: Seq<Seq<char>>,
    after: Seq<Seq<char>>,
    r: Guess,
) -> bool {
    match r {
        Guess::NoCandidates => answers@.len() == 0 && after == before,
        Guess::Solved(w) => answers@.len() == 1 && w@ == answers@[0] && after == before,
        Guess::Suggest(w) => {
            &&& answers@.len() > 1
            &&& after.to_multiset() == before.to_multiset()
            &&& after.len() == before.len()
            &&& sorted_by_score(after, frequency_of(answers))
            &&& w@ == after[0]
            &&& is_first_best(before, w@, scores(frequency_of(answers)))
            &&& stable_order(before, after, scores(frequency_of(answers)))
        },
    }
}

/// Every clue among the first `n` of `cls` agrees with the word.
pub open spec fn all_agree(cls: Seq<Clue>, n: int) -> spec_fn(Seq<char>) -> bool {
    |w: Seq<char>| forall|j: int| 0 <= j < n ==> satisfies(w, #[trigger] cls[j])
}

impl State {
    /// The three sets hold well-formed words; the answers are never more than
    /// the guess pool, nor the pool more than the full list, whose size fits
    /// in a `u32`.
    pub open spec fn wf(&self) -> bool {
        &&& self.all_words.wf()
        &&& self.valid_words.wf()
        &&& self.valid_guesses.wf()
        &&& self.valid_words@.len() <= self.valid_guesses@.len()
        &&& self.valid_guesses@.len() <= self.all_words@.len()
        &&& self.all_words@.len() <= u32::MAX
    }

    /// A session over the word list `all_words`, with no answers and no guess
    /// pool until the first reset.
    pub fn new(all_words: Dictionary) -> (r: State)
        requires
            all_words.wf(),
            all_words@.len() <= u32::MAX,
        ensures
            r.wf(),
            r.all_words == all_words,
            r.valid_words@.len() == 0,
            r.valid_guesses@.len() == 0,
    {
        State { all_words, valid_words: Dictionary::empty(), valid_guesses: Dictionary::empty() }
    }
}

/// The next guess: nothing when no answer is left, the answer when one is
/// left, else the best word of the guess pool against the letter frequencies
/// of the answers.
pub fn get_guess(state: &mut State) -> (r: Guess)
    requires
        old(state).wf(),
    ensures
        final(state).wf(),
        final(state).all_words == old(state).all_words,
        final(state).valid_words == old(state).valid_words,
        final(state).valid_guesses.ignore_letters@ == old(state).valid_guesses.ignore_letters@,
        is_next_guess(old(state).valid_words, old(state).valid_guesses@, final(state).valid_guesses@, r),
{
    let len = state.valid_words.words.len();
    if len == 0 {
        return Guess::NoCandidates;
    } else if len == 1 {
        return Guess::Solved(state.valid_words.words[0].duplicate());
    }
    let freq = state.valid_words.char_frequency();
    let w = state.valid_guesses.sort(&freq);
    Guess::Suggest(w)
}

/// A word that begins with `c` holds `c` at least once.
proof fn lemma_count_first(s: Seq<char>, c: char, n: int)
    requires
        1 <= n,
        s[0] == c,
    ensures
        count_upto(s, c, n) >= 1,
    decreases n,
{
    if n > 1 {
        lemma_count_first(s, c, n - 1);
    }
}

/// The clue that opens a session: `c` stands first, and nothing is known of
/// the other positions.
pub fn seed_clue(c: char) -> (r: Clue)
    ensures
        r.wf(),
        r.c == c,
        !r.is_resolved(),
        forall|w: Seq<char>| is_word(w) ==> (satisfies(w, r) <==> w[0] == c),
{
    let mut hints: Vec<Hint> = Vec::new();
    hints.push(Hint::Yes);
    let mut i: usize = 1;
    while i < WORD_LEN
        invariant
            1 <= i <= WORD_LEN,
            hints@.len() == i,
            hints@[0] == Hint::Yes,
            forall|j: int| 1 <= j < i ==> hints@[j] == Hint::Maybe,
        decreases WORD_LEN - i,
    {
        hints.push(Hint::Maybe);
        i += 1;
    }
    let r = Clue { c, occur: 1, hints };
    assert(r.hints@[1] == Hint::Maybe);
    assert forall|w: Seq<char>| is_word(w) implies (satisfies(w, r) <==> w[0] == c) by {
        if w[0] == c {
            lemma_count_first(w, c, WORD_LEN as int);
        }
    }
    r
}

/// Starts a session anew: the answers and the guess pool become the words of
/// the full list that begin with `letter`. Returns the first guess.
pub fn reset(state: &mut State, letter: char) -> (r: Guess)
    requires
        old(state).wf(),
    ensures
        final(state).wf(),
        final(state).all_words == old(state).all_words,
        final(state).valid_words@ == keep(old(state).all_words@, starts_with(letter)),
        final(state).valid_words.ignore_letters@ == old(state).all_words.ignore_letters@,
        final(state).valid_guesses.ignore_letters@ == old(state).all_words.ignore_letters@,
        is_next_guess(final(state).valid_words, final(state).valid_words@, final(state).valid_guesses@, r),
{
    let clue = seed_clue(letter);
    let mut words = state.all_words.duplicate();
    assert(words.wf());
    words.filter(&clue);
    proof {
        let ws = state.all_words@;
        assert forall|k: int| 0 <= k < ws.len() implies agrees(clue)(#[trigger] ws[k]) == starts_with(letter)(ws[k]) by {
            assert(is_word(ws[k]));
        }
        lemma_keep_agree(ws, agrees(clue), starts_with(letter));
        lemma_keep_len(ws, agrees(clue));
    }
    state.valid_words = words.duplicate();
    state.valid_guesses = words;
    get_guess(state)
}

/// The clues that the codec gives for a report say together exactly what the
/// report says, and resolve exactly the letters that the report settles.
proof fn lemma_clues_of_report(cls: Seq<Clue>, g: Seq<char>, f: Seq<char>)
    requires
        g.len() == WORD_LEN,
        sorted_letters_of(cls.map_values(|cl: Clue| cl.c), g),
        forall|k: int| 0 <= k < cls.len() ==> (#[trigger] cls[k]).wf() && is_clue_of(cls[k], g, f),
    ensures
        forall|w: Seq<char>| #[trigger] all_agree(cls, cls.len() as int)(w) == consistent(w, g, f),
        forall|j: int|
            0 <= j < cls.len() ==> (#[trigger] cls[j]).is_resolved() == report_resolves(g, f, cls[j].c),
{
    let cs = cls.map_values(|cl: Clue| cl.c);
    assert forall|w: Seq<char>| #[trigger] all_agree(cls, cls.len() as int)(w) == consistent(w, g, f) by {
        if all_agree(cls, cls.len() as int)(w) {
            assert forall|i: int| 0 <= i < WORD_LEN implies satisfies_hints(
                w,
                #[trigger] g[i],
                expected_occur(g, f, g[i]),
                expected_hints(g, f, g[i]),
            ) by {
                assert(holds(cs, g[i]));
                let k = choose|k: int| 0 <= k < cs.len() && cs[k] == g[i];
                assert(satisfies(w, cls[k]));
            }
        }
        if consistent(w, g, f) {
            assert forall|j: int| 0 <= j < cls.len() implies satisfies(w, #[trigger] cls[j]) by {
                assert(cs[j] == cls[j].c);
                assert(holds(g, cs[j]));
                let i = choose|i: int| 0 <= i < g.len() && g[i] == cs[j];
                assert(satisfies_hints(w, g[i], expected_occur(g, f, g[i]), expected_hints(g, f, g[i])));
            }
        }
    }
    assert forall|j: int| 0 <= j < cls.len() implies (#[trigger] cls[j]).is_resolved() == report_resolves(
        g,
        f,
        cls[j].c,
    ) by {
        let c = cls[j].c;
        if cls[j].is_resolved() {
            assert forall|i: int| 0 <= i < WORD_LEN implies expected_hint(g, f, c, i) != Hint::Maybe by {
                assert(cls[j].hints@[i] == expected_hint(g, f, c, i));
            }
        }
        if report_resolves(g, f, c) {
            assert forall|p: int| 0 <= p < cls[j].hints@.len() implies cls[j].hints@[p] != Hint::Maybe
                && cls[j].hints@[p] != Hint::Unset by {
                assert(cls[j].hints@[p] == expected_hint(g, f, c, p));
            }
        }
    }
}

/// Applies the feedback `feedback` on guess `guess` to the answers: keeps the
/// words that the report rules nothing out of, and marks the letters it
/// settles. Returns the next guess. A guess or feedback whose length is not
/// `WORD_LEN`, or a guess that is not lowercase letters, is refused and
/// changes nothing.
pub fn hint(state: &mut State, guess: &str, feedback: &str) -> (r: Result<Guess, InputError>)
    requires
        old(state).wf(),
    ensures
        final(state).wf(),
        final(state).all_words == old(state).all_words,
        (r == Err::<Guess, InputError>(InputError::LengthMismatch)) <==> (guess@.len() != WORD_LEN
            || feedback@.len() != WORD_LEN),
        (r == Err::<Guess, InputError>(InputError::InvalidCharacter)) <==> (guess@.len() == WORD_LEN
            && feedback@.len() == WORD_LEN && !is_lower_word(guess@)),
        r is Err ==> *final(state) == *old(state),
        r is Ok ==> {
            &&& final(state).valid_words@ == keep(old(state).valid_words@, consistent_with(guess@, feedback@))
            &&& exists|cs: Seq<char>|
                sorted_letters_of(cs, guess@) && final(state).valid_words.ignore_letters@ == old(
                    state,
                ).valid_words.ignore_letters@ + cs.filter(settled_by(guess@, feedback@))
            &&& final(state).valid_guesses.ignore_letters@ == old(state).valid_guesses.ignore_letters@
            &&& is_next_guess(final(state).valid_words, old(state).valid_guesses@, final(state).valid_guesses@, r->Ok_0)
        },
{
    if guess.unicode_len() != WORD_LEN || feedback.unicode_len() != WORD_LEN {
        return Err(InputError::LengthMismatch);
    }
    if !is_lowercase_word(guess) {
        return Err(InputError::InvalidCharacter);
    }
    let clues = Clue::from_input(guess, feedback);
    let ghost ws0 = state.valid_words@;
    let ghost ig0 = state.valid_words.ignore_letters@;
    let ghost st0 = *state;
    let ghost cs = clues@.map_values(|cl: Clue| cl.c);
    proof {
        assert(cs.take(0) =~= Seq::<char>::empty());
        assert(ig0 + cs.take(0).filter(settled_by(guess@, feedback@)) =~= ig0);
        lemma_clues_of_report(clues@, guess@, feedback@);
        lemma_keep_agree(ws0, all_agree(clues@, 0), |w: Seq<char>| true);
        lemma_keep_all(ws0);
    }
    let mut k: usize = 0;
    while k < clues.len()
        invariant
            k <= clues@.len(),
            state.wf(),
            state.all_words == st0.all_words,
            state.valid_guesses == st0.valid_guesses,
            ws0.len() <= st0.valid_guesses@.len(),
            forall|j: int| 0 <= j < clues@.len() ==> (#[trigger] clues@[j]).wf(),
            state.valid_words@ == keep(ws0, all_agree(clues@, k as int)),
            state.valid_words.ignore_letters@ == ig0 + cs.take(k as int).filter(settled_by(guess@, feedback@)),
            cs == clues@.map_values(|cl: Clue| cl.c),
            forall|j: int|
                0 <= j < clues@.len() ==> (#[trigger] clues@[j]).is_resolved() == report_resolves(
                    guess@,
                    feedback@,
                    clues@[j].c,
                ),
        decreases clues@.len() - k,
    {
        let ghost ig = state.valid_words.ignore_letters@;
        state.valid_words.filter(&clues[k]);
        proof {
            let p = all_agree(clues@, k as int);
            let q = agrees(clues@[k as int]);
            lemma_keep_keep(ws0, p, q);
            assert forall|j: int| 0 <= j < ws0.len() implies (|w: Seq<char>| p(w) && q(w))(#[trigger] ws0[j])
                == all_agree(clues@, k + 1)(ws0[j]) by {
                let w = ws0[j];
                if p(w) && q(w) {
                    assert forall|m: int| 0 <= m < k + 1 implies satisfies(w, #[trigger] clues@[m]) by {
                        if m < k {
                            assert(p(w));
                        }
                    }
                }
                if all_agree(clues@, k + 1)(w) {
                    assert(satisfies(w, clues@[k as int]));
                }
            }
            lemma_keep_agree(ws0, |w: Seq<char>| p(w) && q(w), all_agree(clues@, k + 1));
            lemma_keep_len(ws0, all_agree(clues@, k + 1));
            reveal(Seq::filter);
            assert(cs.take(k + 1).drop_last() =~= cs.take(k as int));
            assert(cs[k as int] == clues@[k as int].c);
            let pred = settled_by(guess@, feedback@);
            let t1 = cs.take(k + 1);
            assert(t1.last() == cs[k as int]);
            assert(pred(cs[k as int]) == clues@[k as int].is_resolved());
            if clues@[k as int].is_resolved() {
                assert(t1.filter(pred) == cs.take(k as int).filter(pred).push(cs[k as int]));
                assert(state.valid_words.ignore_letters@ =~= ig0 + t1.filter(pred));
            } else {
                assert(t1.filter(pred) == cs.take(k as int).filter(pred));
            }
        }
        k += 1;
    }
    proof {
        lemma_keep_agree(ws0, all_agree(clues@, k as int), consistent_with(guess@, feedback@));
        assert(cs.take(k as int) =~= cs);
    }
    let r = get_guess(state);
    Ok(r)
}

} // verus!
