//! Properties of clues, candidate sets and sessions, stated over the
//! functions' contracts and proved.
use vstd::prelude::*;

use crate::clue::{
    code_kind, count_kind, expected_hints, expected_occur, holds, is_clue_of, sorted_letters_of,
    total_kind, Clue, Hint,
};
use crate::dictionary::{
    all_words, frequency_of, keep, lemma_keep_agree, lemma_keep_all, lemma_keep_contains, lemma_keep_len,
    Dictionary,
};
use crate::session::{consistent, consistent_with, is_next_guess, starts_with, Guess};
use crate::word::{is_word, satisfies, satisfies_hints};
use crate::{count_upto, occurrences, WORD_LEN};

verus! {

/// `f` is a truthful report on guess `g` for the target `t`: a position is
/// marked right (`'c'`) exactly where target and guess agree; a letter marked
/// present elsewhere (`'w'`) stands in the target at a position where the guess
/// does not hold it; and a letter marked absent stands nowhere in the target
/// but where the guess holds it too.
pub open spec fn truthful(t: Seq<char>, g: Seq<char>, f: Seq<char>) -> bool {
    forall|i: int|
        0 <= i < WORD_LEN ==> {
            &&& (code_kind(#[trigger] f[i]) == 0 <==> t[i] == g[i])
            &&& (code_kind(f[i]) == 1 ==> exists|j: int|
                0 <= j < WORD_LEN && t[j] == g[i] && #[trigger] g[j] != g[i])
            &&& (code_kind(f[i]) == 2 ==> forall|j: int|
                0 <= j < WORD_LEN && #[trigger] g[j] != g[i] ==> t[j] != g[i])
        }
}

/// A positive count of positions of kind `k` has a witness.
proof fn lemma_kind_witness(g: Seq<char>, f: Seq<char>, c: char, k: int, n: int)
    requires
        count_kind(g, f, c, k, n) > 0,
    ensures
        exists|q: int| 0 <= q < n && g[q] == c && code_kind(f[q]) == k,
    decreases n,
{
    if n > 0 && count_kind(g, f, c, k, n - 1) > 0 {
        lemma_kind_witness(g, f, c, k, n - 1);
    }
}

/// In a truthful report, the target holds `c` at every right position of `c`,
/// and once more for each position where it holds `c` and the guess does not.
proof fn lemma_truthful_count(t: Seq<char>, g: Seq<char>, f: Seq<char>, c: char, n: int)
    requires
        t.len() == WORD_LEN,
        g.len() == WORD_LEN,
        f.len() == WORD_LEN,
        0 <= n <= WORD_LEN,
        truthful(t, g, f),
    ensures
        count_upto(t, c, n) >= count_kind(g, f, c, 0, n) + if exists|j: int|
            0 <= j < n && t[j] == c && g[j] != c {
            1nat
        } else {
            0nat
        },
    decreases n,
{
    if n > 0 {
        lemma_truthful_count(t, g, f, c, n - 1);
        let q = n - 1;
        assert(code_kind(f[q]) == 0 <==> t[q] == g[q]);
        if exists|j: int| 0 <= j < n - 1 && t[j] == c && g[j] != c {
            let j = choose|j: int| 0 <= j < n - 1 && t[j] == c && g[j] != c;
            assert(0 <= j < n && t[j] == c && g[j] != c);
        }
    }
}

/// A truthful report on the target rules nothing out of the target: the target
/// agrees with the clue of every letter of the guess.
pub proof fn law_target_is_consistent(t: Seq<char>, g: Seq<char>, f: Seq<char>)
    requires
        is_word(t),
        g.len() == WORD_LEN,
        f.len() == WORD_LEN,
        truthful(t, g, f),
    ensures
        consistent(t, g, f),
{
    assert forall|i: int| 0 <= i < WORD_LEN implies satisfies_hints(
        t,
        #[trigger] g[i],
        expected_occur(g, f, g[i]),
        expected_hints(g, f, g[i]),
    ) by {
        let c = g[i];
        let hs = expected_hints(g, f, c);
        assert forall|p: int| 0 <= p < t.len() implies (#[trigger] hs[p] == Hint::Yes ==> t[p] == c)
            && (hs[p] == Hint::No ==> t[p] != c) by {
            assert(code_kind(f[p]) == 0 <==> t[p] == g[p]);
            if g[p] != c && total_kind(g, f, c, 2) > 0 {
                lemma_kind_witness(g, f, c, 2, WORD_LEN as int);
                let q = choose|q: int| 0 <= q < WORD_LEN && g[q] == c && code_kind(f[q]) == 2;
                assert(code_kind(f[q]) == 2);
                assert(g[p] != g[q]);
            }
        }
        lemma_truthful_count(t, g, f, c, WORD_LEN as int);
        if total_kind(g, f, c, 1) > 0 {
            lemma_kind_witness(g, f, c, 1, WORD_LEN as int);
            let q = choose|q: int| 0 <= q < WORD_LEN && g[q] == c && code_kind(f[q]) == 1;
            assert(code_kind(f[q]) == 1);
            let j = choose|j: int| 0 <= j < WORD_LEN && t[j] == g[q] && #[trigger] g[j] != g[q];
            assert(0 <= j < WORD_LEN && t[j] == c && g[j] != c);
        }
        assert(occurrences(t, c) >= expected_occur(g, f, c));
    }
}

/// The target survives every truthful report: if it is among the answers
/// before the report is applied, it is among them after.
pub proof fn law_target_survives_feedback(
    answers: Seq<Seq<char>>,
    t: Seq<char>,
    g: Seq<char>,
    f: Seq<char>,
)
    requires
        is_word(t),
        g.len() == WORD_LEN,
        f.len() == WORD_LEN,
        truthful(t, g, f),
        answers.contains(t),
    ensures
        keep(answers, consistent_with(g, f)).contains(t),
{
    law_target_is_consistent(t, g, f);
    lemma_keep_contains(answers, consistent_with(g, f), t);
}

/// The target survives a reset on its own first letter.
pub proof fn law_target_survives_reset(all: Seq<Seq<char>>, t: Seq<char>)
    requires
        all.contains(t),
        t.len() == WORD_LEN,
    ensures
        keep(all, starts_with(t[0])).contains(t),
{
    lemma_keep_contains(all, starts_with(t[0]), t);
}

/// Filtering never grows the set of answers.
pub proof fn law_filter_narrows(answers: Seq<Seq<char>>, pred: spec_fn(Seq<char>) -> bool)
    ensures
        keep(answers, pred).len() <= answers.len(),
{
    lemma_keep_len(answers, pred);
}

/// Once a resolved clue has been applied to a set, its letter's row of the
/// set's frequency table is zero, whatever words hold the letter.
pub proof fn law_resolved_letter_zeroed(before: Dictionary, after: Dictionary, clue: Clue)
    requires
        clue.is_resolved(),
        after.ignore_letters@ == (if clue.is_resolved() {
            before.ignore_letters@.push(clue.c)
        } else {
            before.ignore_letters@
        }),
    ensures
        forall|i: int| 0 <= i < WORD_LEN ==> #[trigger] frequency_of(after)(clue.c, i) == 0,
{
    assert(after.ignore_letters@[before.ignore_letters@.len() as int] == clue.c);
}

/// With no answer left the solver has no guess; with one answer left it names
/// that answer and leaves the guess pool alone.
pub proof fn law_terminal_states(
    answers: Dictionary,
    before: Seq<Seq<char>>,
    after: Seq<Seq<char>>,
    r: Guess,
)
    requires
        is_next_guess(answers, before, after, r),
    ensures
        answers@.len() == 0 ==> r is NoCandidates,
        answers@.len() == 1 ==> r is Solved && r->Solved_0@ == answers@[0] && after == before,
{
}

/// The guess pool is not narrowed: the pool holds the same words as the
/// answers had at the last reset (`reset` and `get_guess` only reorder it), and
/// the answers since are those kept by `pred`, the conjunction of every report
/// applied since (filters compose, `lemma_keep_keep`). Whenever fewer answers
/// are left than the pool holds, the pool keeps a word that was ruled out.
pub proof fn law_pool_keeps_ruled_out(
    pool: Seq<Seq<char>>,
    answers: Seq<Seq<char>>,
    pred: spec_fn(Seq<char>) -> bool,
)
    requires
        pool.to_multiset() == answers.to_multiset(),
        keep(answers, pred).len() < pool.len(),
    ensures
        exists|w: Seq<char>| pool.contains(w) && answers.contains(w) && !keep(answers, pred).contains(w),
{
    broadcast use vstd::seq_lib::to_multiset_contains, vstd::seq_lib::to_multiset_len;

    assert(pool.len() == pool.to_multiset().len());
    assert(answers.len() == answers.to_multiset().len());
    if forall|k: int| 0 <= k < answers.len() ==> pred(#[trigger] answers[k]) {
        lemma_keep_agree(answers, pred, |w: Seq<char>| true);
        lemma_keep_all(answers);
    }
    let k = choose|k: int| 0 <= k < answers.len() && !pred(#[trigger] answers[k]);
    let w = answers[k];
    assert(answers.contains(w));
    lemma_keep_contains(answers, pred, w);
    vstd::seq_lib::to_multiset_contains(answers, w);
    vstd::seq_lib::to_multiset_contains(pool, w);
    assert(pool.contains(w));
}

/// Each clue that the codec gives for a truthful report agrees with the
/// target.
pub proof fn law_target_satisfies_each_clue(t: Seq<char>, g: Seq<char>, f: Seq<char>, clue: Clue)
    requires
        is_word(t),
        g.len() == WORD_LEN,
        f.len() == WORD_LEN,
        truthful(t, g, f),
        is_clue_of(clue, g, f),
        holds(g, clue.c),
    ensures
        satisfies(t, clue),
{
    law_target_is_consistent(t, g, f);
    let i = choose|i: int| 0 <= i < g.len() && g[i] == clue.c;
    assert(satisfies_hints(t, g[i], expected_occur(g, f, g[i]), expected_hints(g, f, g[i])));
}

/// A report that marks every position of the guess right leaves only the
/// guess itself among the answers, and keeps it if it was there.
pub proof fn law_all_right_leaves_target(answers: Seq<Seq<char>>, t: Seq<char>, f: Seq<char>)
    requires
        is_word(t),
        f.len() == WORD_LEN,
        forall|i: int| 0 <= i < WORD_LEN ==> #[trigger] f[i] == 'c',
        all_words(answers),
    ensures
        forall|w: Seq<char>| #[trigger] keep(answers, consistent_with(t, f)).contains(w) ==> w == t,
        answers.contains(t) ==> keep(answers, consistent_with(t, f)).contains(t),
{
    assert forall|w: Seq<char>| #[trigger] keep(answers, consistent_with(t, f)).contains(w) implies w == t by {
        lemma_keep_contains(answers, consistent_with(t, f), w);
        let k = choose|k: int| 0 <= k < answers.len() && answers[k] == w;
        assert(is_word(answers[k]));
        assert forall|i: int| 0 <= i < WORD_LEN implies w[i] == t[i] by {
            assert(satisfies_hints(w, t[i], expected_occur(t, f, t[i]), expected_hints(t, f, t[i])));
            assert(code_kind(f[i]) == 0);
            assert(expected_hints(t, f, t[i])[i] == Hint::Yes);
        }
        assert(w =~= t);
    }
    assert(truthful(t, t, f)) by {
        assert forall|i: int| 0 <= i < WORD_LEN implies code_kind(#[trigger] f[i]) == 0 by {}
    }
    if answers.contains(t) {
        law_target_survives_feedback(answers, t, t, f);
    }
}

/// Two ascending lists without repeats that hold the same letters are equal.
proof fn lemma_sorted_unique(a: Seq<char>, b: Seq<char>)
    requires
        forall|i: int, j: int| 0 <= i < j < a.len() ==> a[i] < a[j],
        forall|i: int, j: int| 0 <= i < j < b.len() ==> b[i] < b[j],
        forall|x: char| holds(a, x) <==> holds(b, x),
    ensures
        a == b,
    decreases a.len(),
{
    if a.len() == 0 {
        if b.len() > 0 {
            assert(holds(b, b[0]));
        }
        assert(a =~= b);
    } else {
        assert(holds(a, a[0]));
        assert(holds(b, a[0]));
        assert(holds(b, b[0]));
        assert(holds(a, b[0]));
        let jb = choose|j: int| 0 <= j < b.len() && b[j] == a[0];
        let ja = choose|j: int| 0 <= j < a.len() && a[j] == b[0];
        assert(b[0] <= b[jb]);
        assert(a[0] <= a[ja]);
        assert(a[0] == b[0]);
        let a1 = a.drop_first();
        let b1 = b.drop_first();
        assert forall|x: char| holds(a1, x) <==> holds(b1, x) by {
            if holds(a1, x) {
                let i = choose|i: int| 0 <= i < a1.len() && a1[i] == x;
                assert(a[i + 1] == x);
                assert(holds(a, x));
                let j = choose|j: int| 0 <= j < b.len() && b[j] == x;
                assert(j != 0);
                assert(b1[j - 1] == x);
            }
            if holds(b1, x) {
                let i = choose|i: int| 0 <= i < b1.len() && b1[i] == x;
                assert(b[i + 1] == x);
                assert(holds(b, x));
                let j = choose|j: int| 0 <= j < a.len() && a[j] == x;
                assert(j != 0);
                assert(a1[j - 1] == x);
            }
        }
        lemma_sorted_unique(a1, b1);
        assert(a =~= b1.insert(0, b[0]));
        assert(b =~= b1.insert(0, b[0]));
    }
}

/// The codec is deterministic: two results that both meet its contract for
/// the same guess and report are the same clues, in the same order.
pub proof fn law_codec_deterministic(g: Seq<char>, f: Seq<char>, r1: Seq<Clue>, r2: Seq<Clue>)
    requires
        sorted_letters_of(r1.map_values(|cl: Clue| cl.c), g),
        forall|k: int| 0 <= k < r1.len() ==> is_clue_of(#[trigger] r1[k], g, f),
        sorted_letters_of(r2.map_values(|cl: Clue| cl.c), g),
        forall|k: int| 0 <= k < r2.len() ==> is_clue_of(#[trigger] r2[k], g, f),
    ensures
        r1.len() == r2.len(),
        forall|k: int|
            0 <= k < r1.len() ==> (#[trigger] r1[k]).c == r2[k].c && r1[k].occur == r2[k].occur
                && r1[k].hints@ == r2[k].hints@,
{
    let a = r1.map_values(|cl: Clue| cl.c);
    let b = r2.map_values(|cl: Clue| cl.c);
    assert forall|x: char| holds(a, x) <==> holds(b, x) by {
        if holds(a, x) {
            let i = choose|i: int| 0 <= i < a.len() && a[i] == x;
            assert(holds(g, a[i]));
            let j = choose|j: int| 0 <= j < g.len() && g[j] == x;
            assert(holds(b, g[j]));
        }
        if holds(b, x) {
            let i = choose|i: int| 0 <= i < b.len() && b[i] == x;
            assert(holds(g, b[i]));
            let j = choose|j: int| 0 <= j < g.len() && g[j] == x;
            assert(holds(a, g[j]));
        }
    }
    lemma_sorted_unique(a, b);
    assert forall|k: int| 0 <= k < r1.len() implies (#[trigger] r1[k]).c == r2[k].c && r1[k].occur
        == r2[k].occur && r1[k].hints@ == r2[k].hints@ by {
        assert(a[k] == b[k]);
        assert(is_clue_of(r1[k], g, f));
        assert(is_clue_of(r2[k], g, f));
    }
}

/// The guess pool is not narrowed, whatever the reports: when the answers hold
/// the words of the pool that some predicate keeps (as after a reset and after
/// every later report) and they are fewer than the pool, the pool holds a word
/// that is no longer among the answers.
pub proof fn law_pool_outlasts_answers(
    pool: Seq<Seq<char>>,
    answers: Seq<Seq<char>>,
    pred: spec_fn(Seq<char>) -> bool,
)
    requires
        answers.to_multiset() == keep(pool, pred).to_multiset(),
        answers.len() < pool.len(),
    ensures
        exists|w: Seq<char>| pool.contains(w) && !answers.contains(w),
{
    broadcast use vstd::seq_lib::to_multiset_len;

    assert(answers.len() == answers.to_multiset().len());
    assert(keep(pool, pred).len() == keep(pool, pred).to_multiset().len());
    if forall|k: int| 0 <= k < pool.len() ==> pred(#[trigger] pool[k]) {
        lemma_keep_agree(pool, pred, |w: Seq<char>| true);
        lemma_keep_all(pool);
    }
    let k = choose|k: int| 0 <= k < pool.len() && !pred(#[trigger] pool[k]);
    let w = pool[k];
    assert(pool.contains(w));
    lemma_keep_contains(pool, pred, w);
    vstd::seq_lib::to_multiset_contains(answers, w);
    vstd::seq_lib::to_multiset_contains(keep(pool, pred), w);
}

} // verus!
