//! Candidate sets: an ordered list of words and the letters that no longer
//! count towards scoring.
use vstd::prelude::*;

use crate::clue::Clue;
use crate::word::{is_word, lemma_slot, row_index, satisfies, word_score, CharFrequency, Word};
use crate::{lowered, trimmed, WORD_LEN};

verus! {

/// A list of candidate words, and the letters that are fully resolved.
#[derive(Clone, Debug)]
pub struct Dictionary {
    pub words: Vec<Word>,
    pub ignore_letters: Vec<char>,
}

/// The texts of a list of words.
pub open spec fn texts(ws: Seq<Word>) -> Seq<Seq<char>> {
    ws.map_values(|w: Word| w@)
}

/// Every entry of `ws` is a well-formed word.
pub open spec fn all_words(ws: Seq<Seq<char>>) -> bool {
    forall|k: int| 0 <= k < ws.len() ==> is_word(#[trigger] ws[k])
}

/// The words of `ws` for which `pred` holds, in their order.
pub open spec fn keep(ws: Seq<Seq<char>>, pred: spec_fn(Seq<char>) -> bool) -> Seq<Seq<char>>
    decreases ws.len(),
{
    if ws.len() == 0 {
        ws
    } else {
        let rest = keep(ws.drop_last(), pred);
        if pred(ws.last()) {
            rest.push(ws.last())
        } else {
            rest
        }
    }
}

/// Number of words among the first `n` of `ws` that hold `c` at position `i`.
pub open spec fn count_at(ws: Seq<Seq<char>>, c: char, i: int, n: int) -> nat
    decreases n,
{
    if n <= 0 {
        0
    } else {
        count_at(ws, c, i, n - 1) + if ws[n - 1][i] == c {
            1nat
        } else {
            0nat
        }
    }
}

/// The frequency of character `c` at position `i` over the words `ws`, with
/// the characters of `ignore` counted as zero.
pub open spec fn frequency(ws: Seq<Seq<char>>, ignore: Seq<char>, c: char, i: int) -> nat {
    if 0 <= i < WORD_LEN && !ignore.contains(c) {
        count_at(ws, c, i, ws.len() as int)
    } else {
        0
    }
}

/// The frequency table of a candidate set, as a function of letter and
/// position.
pub open spec fn frequency_of(d: Dictionary) -> spec_fn(char, int) -> nat {
    |c: char, i: int| frequency(d@, d.ignore_letters@, c, i)
}

/// The score of each word against a frequency table.
pub open spec fn scores(freq: spec_fn(char, int) -> nat) -> spec_fn(Seq<char>) -> nat {
    |w: Seq<char>| word_score(w, freq)
}

/// The words are ordered by non-increasing score.
pub open spec fn sorted_by_score(ws: Seq<Seq<char>>, freq: spec_fn(char, int) -> nat) -> bool {
    forall|a: int, b: int| 0 <= a < b < ws.len() ==> word_score(ws[a], freq) >= word_score(ws[b], freq)
}

/// The predicate "agrees with `clue`".
pub open spec fn agrees(clue: Clue) -> spec_fn(Seq<char>) -> bool {
    |w: Seq<char>| satisfies(w, clue)
}

/// `w` is the earliest word of `ws` among those with the highest score.
pub open spec fn is_first_best(ws: Seq<Seq<char>>, w: Seq<char>, freq: spec_fn(Seq<char>) -> nat) -> bool {
    exists|i: int|
        0 <= i < ws.len() && ws[i] == w && (forall|j: int|
            0 <= j < ws.len() ==> freq(#[trigger] ws[j]) <= freq(ws[i])) && (forall|j: int|
            0 <= j < i ==> freq(#[trigger] ws[j]) < freq(ws[i]))
}

/// `after` holds words of `before`, each position of `before` used at most
/// once, and words of equal score stand in the order they had in `before`.
pub open spec fn stable_order(
    before: Seq<Seq<char>>,
    after: Seq<Seq<char>>,
    sc: spec_fn(Seq<char>) -> nat,
) -> bool {
    exists|idx: Seq<int>|
        {
            &&& idx.len() == after.len()
            &&& forall|a: int|
                0 <= a < after.len() ==> 0 <= #[trigger] idx[a] < before.len() && after[a]
                    == before[idx[a]]
            &&& forall|a: int, b: int| 0 <= a < b < after.len() ==> #[trigger] idx[a] != #[trigger] idx[b]
            &&& forall|a: int, b: int|
                0 <= a < b < after.len() && sc(#[trigger] after[a]) == sc(#[trigger] after[b]) ==> idx[a]
                    < idx[b]
        }
}

/// Filtering never adds words: the kept words are at most as many as before.
pub proof fn lemma_keep_len(ws: Seq<Seq<char>>, pred: spec_fn(Seq<char>) -> bool)
    ensures
        keep(ws, pred).len() <= ws.len(),
    decreases ws.len(),
{
    if ws.len() > 0 {
        lemma_keep_len(ws.drop_last(), pred);
    }
}

/// Filtering by one predicate and then another is filtering by both.
pub proof fn lemma_keep_keep(
    ws: Seq<Seq<char>>,
    p: spec_fn(Seq<char>) -> bool,
    q: spec_fn(Seq<char>) -> bool,
)
    ensures
        keep(keep(ws, p), q) == keep(ws, |w: Seq<char>| p(w) && q(w)),
    decreases ws.len(),
{
    if ws.len() > 0 {
        lemma_keep_keep(ws.drop_last(), p, q);
        let r = keep(ws.drop_last(), p);
        assert(r.push(ws.last()).drop_last() =~= r);
    }
}

/// Keeping every word keeps the list as it is.
pub proof fn lemma_keep_all(ws: Seq<Seq<char>>)
    ensures
        keep(ws, |w: Seq<char>| true) == ws,
    decreases ws.len(),
{
    if ws.len() > 0 {
        lemma_keep_all(ws.drop_last());
        assert(ws.drop_last().push(ws.last()) =~= ws);
    }
}

/// Predicates that agree on every word of the list keep the same words.
pub proof fn lemma_keep_agree(
    ws: Seq<Seq<char>>,
    p: spec_fn(Seq<char>) -> bool,
    q: spec_fn(Seq<char>) -> bool,
)
    requires
        forall|k: int| 0 <= k < ws.len() ==> p(#[trigger] ws[k]) == q(ws[k]),
    ensures
        keep(ws, p) == keep(ws, q),
    decreases ws.len(),
{
    if ws.len() > 0 {
        assert forall|k: int| 0 <= k < ws.drop_last().len() implies p(
            #[trigger] ws.drop_last()[k],
        ) == q(ws.drop_last()[k]) by {
            assert(ws.drop_last()[k] == ws[k]);
        }
        lemma_keep_agree(ws.drop_last(), p, q);
        assert(p(ws[ws.len() - 1]) == q(ws[ws.len() - 1]));
    }
}

/// A word that is kept was in the list and meets the predicate; a word of the
/// list that meets the predicate is kept.
pub proof fn lemma_keep_contains(ws: Seq<Seq<char>>, pred: spec_fn(Seq<char>) -> bool, w: Seq<char>)
    ensures
        keep(ws, pred).contains(w) <==> ws.contains(w) && pred(w),
    decreases ws.len(),
{
    if ws.len() > 0 {
        lemma_keep_contains(ws.drop_last(), pred, w);
        assert(ws =~= ws.drop_last().push(ws.last()));
        if ws.drop_last().contains(w) {
            let k = choose|k: int| 0 <= k < ws.drop_last().len() && ws.drop_last()[k] == w;
            assert(ws[k] == w);
        }
        if keep(ws.drop_last(), pred).contains(w) && pred(ws.last()) {
            let r = keep(ws.drop_last(), pred);
            let k = choose|k: int| 0 <= k < r.len() && r[k] == w;
            assert(r.push(ws.last())[k] == w);
        }
        if ws.contains(w) && pred(w) {
            let k = choose|k: int| 0 <= k < ws.len() && ws[k] == w;
            if k == ws.len() - 1 {
                assert(keep(ws, pred).last() == w);
            } else {
                assert(ws.drop_last()[k] == w);
            }
        }
    }
}

/// A count over the first `n` words is at most `n`.
proof fn lemma_count_at_bound(ws: Seq<Seq<char>>, c: char, i: int, n: int)
    requires
        0 <= n,
    ensures
        count_at(ws, c, i, n) <= n,
    decreases n,
{
    if n > 0 {
        lemma_count_at_bound(ws, c, i, n - 1);
    }
}

impl View for Dictionary {
    type V = Seq<Seq<char>>;

    open spec fn view(&self) -> Seq<Seq<char>> {
        texts(self.words@)
    }
}

impl Dictionary {
    /// Every word of the set is well formed.
    pub open spec fn wf(&self) -> bool {
        all_words(self@)
    }

    /// The set with no words and no resolved letters.
    pub fn empty() -> (r: Dictionary)
        ensures
            r@.len() == 0,
            r.ignore_letters@.len() == 0,
            r.wf(),
    {
        Dictionary { words: Vec::new(), ignore_letters: Vec::new() }
    }

    /// A copy of the set.
    pub fn duplicate(&self) -> (r: Dictionary)
        ensures
            r@ == self@,
            r.ignore_letters@ == self.ignore_letters@,
    {
        let mut words: Vec<Word> = Vec::new();
        let mut k: usize = 0;
        while k < self.words.len()
            invariant
                k <= self.words@.len(),
                texts(words@) == self@.take(k as int),
            decreases self.words@.len() - k,
        {
            let ghost prev = words@;
            words.push(self.words[k].duplicate());
            assert(texts(words@) =~= texts(prev).push(self@[k as int]));
            k += 1;
            assert(texts(words@) =~= self@.take(k as int));
        }
        let mut ignore_letters: Vec<char> = Vec::new();
        let mut m: usize = 0;
        while m < self.ignore_letters.len()
            invariant
                m <= self.ignore_letters@.len(),
                ignore_letters@ == self.ignore_letters@.take(m as int),
            decreases self.ignore_letters@.len() - m,
        {
            ignore_letters.push(self.ignore_letters[m]);
            m += 1;
            assert(ignore_letters@ =~= self.ignore_letters@.take(m as int));
        }
        assert(texts(words@) =~= self@);
        assert(ignore_letters@ =~= self.ignore_letters@);
        Dictionary { words, ignore_letters }
    }

    /// The set of the lines of `lines` that have `WORD_LEN` characters once
    /// leading and trailing white space is dropped, in their order, trimmed
    /// and with ASCII capitals made lowercase.
    pub fn from_lines(lines: &Vec<String>) -> (r: Dictionary)
        ensures
            r.wf(),
            r.ignore_letters@.len() == 0,
            r@ == lines@.map_values(|l: String| lowered(trimmed(l@))).filter(|l: Seq<char>| is_word(l)),
    {
        let mut words: Vec<Word> = Vec::new();
        let mut k: usize = 0;
        while k < lines.len()
            invariant
                k <= lines@.len(),
                texts(words@) == lines@.map_values(|l: String| lowered(trimmed(l@))).take(k as int).filter(
                    |l: Seq<char>| is_word(l),
                ),
            decreases lines@.len() - k,
        {
            let ghost prev = words@;
            let ghost ls = lines@.map_values(|l: String| lowered(trimmed(l@)));
            assert(ls.take(k as int + 1).drop_last() =~= ls.take(k as int));
            reveal(Seq::filter);
            match Word::new_lowercase(crate::trim(lines[k].as_str())) {
                Some(w) => {
                    words.push(w);
                    assert(texts(words@) =~= texts(prev).push(ls[k as int]));
                },
                None => {},
            }
            k += 1;
        }
        let ghost ls = lines@.map_values(|l: String| lowered(trimmed(l@)));
        assert(ls.take(k as int) =~= ls);
        let r = Dictionary { words, ignore_letters: Vec::new() };
        assert forall|j: int| 0 <= j < r@.len() implies is_word(#[trigger] r@[j]) by {
            ls.lemma_filter_pred(|l: Seq<char>| is_word(l), j);
        }
        r
    }

    /// Drops the words that disagree with `clue`, and marks its letter as
    /// resolved if every position of the clue is definite.
    pub fn filter(&mut self, clue: &Clue)
        requires
            old(self).wf(),
            clue.wf(),
        ensures
            final(self).wf(),
            final(self)@ == keep(old(self)@, agrees(*clue)),
            final(self).ignore_letters@ == if clue.is_resolved() {
                old(self).ignore_letters@.push(clue.c)
            } else {
                old(self).ignore_letters@
            },
    {
        if clue.resolved() {
            self.ignore_letters.push(clue.c);
        }
        let ghost ws = self@;
        let mut kept: Vec<Word> = Vec::new();
        let mut k: usize = 0;
        while k < self.words.len()
            invariant
                k <= self.words@.len(),
                ws == self@,
                all_words(ws),
                clue.wf(),
                texts(kept@) == keep(ws.take(k as int), agrees(*clue)),
                all_words(texts(kept@)),
            decreases self.words@.len() - k,
        {
            assert(ws.take(k as int + 1).drop_last() =~= ws.take(k as int));
            assert(ws.take(k as int + 1).last() == ws[k as int]);
            let ghost prev = kept@;
            if self.words[k].has(clue) {
                kept.push(self.words[k].duplicate());
                assert(texts(kept@) =~= texts(prev).push(ws[k as int]));
            }
            k += 1;
        }
        assert(ws.take(k as int) =~= ws);
        self.words = kept;
    }

    /// Counts of each character at each position over the words of the set,
    /// with the row of every resolved letter set to zero.
    pub fn char_frequency(&self) -> (r: CharFrequency)
        requires
            self.wf(),
            self@.len() <= u32::MAX,
        ensures
            r.wf(),
            r.table() == frequency_of(*self),
    {
        let ghost ws = self@;
        let mut freq = CharFrequency::empty();
        let mut k: usize = 0;
        while k < self.words.len()
            invariant
                k <= self.words@.len(),
                ws == self@,
                ws.len() <= u32::MAX,
                all_words(ws),
                freq.wf(),
                forall|j: int| 0 <= j < freq.counts@.len() ==> freq.counts@[j] <= k,
                forall|c: char, i: int|
                    0 <= i < WORD_LEN ==> #[trigger] freq.get(c, i) == count_at(ws, c, i, k as int),
            decreases self.words@.len() - k,
        {
            let w = crate::clue::chars_of(self.words[k].as_str());
            assert(is_word(ws[k as int]));
            let mut p: usize = 0;
            while p < WORD_LEN
                invariant
                    p <= WORD_LEN,
                    k < ws.len(),
                    ws.len() <= u32::MAX,
                    w@ == ws[k as int],
                    w@.len() == WORD_LEN,
                    freq.wf(),
                    forall|j: int| 0 <= j < freq.counts@.len() ==> freq.counts@[j] <= k + 1,
                    forall|c: char, i: int|
                        0 <= i < WORD_LEN ==> #[trigger] freq.get(c, i) == count_at(ws, c, i, k as int)
                            + if i < p && w@[i] == c {
                            1nat
                        } else {
                            0nat
                        },
                decreases WORD_LEN - p,
            {
                let c = w[p];
                let row = match freq.find(c) {
                    Some(row) => row,
                    None => freq.add_row(c),
                };
                let _n = freq.counts.len();
                proof {
                    lemma_slot(freq.keys@.len() as int, row as int, p as int);
                }
                let at = row * WORD_LEN + p;
                assert(freq.get(c, p as int) == count_at(ws, c, p as int, k as int));
                proof {
                    lemma_count_at_bound(ws, c, p as int, k as int);
                }
                let ghost before = freq;
                let v = freq.counts[at] + 1;
                freq.counts.set(at, v);
                assert forall|d: char, i: int| 0 <= i < WORD_LEN implies #[trigger] freq.get(d, i)
                    == count_at(ws, d, i, k as int) + if i < p + 1 && w@[i] == d {
                    1nat
                } else {
                    0nat
                } by {
                    if d != c {
                        let rd = row_index(freq.keys@, d);
                        if rd >= 0 {
                            assert(freq.keys@[rd] == d);
                            assert(rd != row);
                        }
                        assert(freq.get(d, i) == before.get(d, i));
                    } else if i != p {
                        assert(freq.get(d, i) == before.get(d, i));
                    }
                }
                p += 1;
            }
            k += 1;
        }
        assert(ws.len() == k);
        let mut m: usize = 0;
        while m < self.ignore_letters.len()
            invariant
                m <= self.ignore_letters@.len(),
                ws == self@,
                freq.wf(),
                forall|c: char, i: int|
                    #[trigger] freq.get(c, i) == frequency(ws, self.ignore_letters@.take(m as int), c, i),
            decreases self.ignore_letters@.len() - m,
        {
            let c = self.ignore_letters[m];
            let ghost ig = self.ignore_letters@;
            assert(ig.take(m as int + 1) =~= ig.take(m as int).push(c));
            match freq.find(c) {
                Some(row) => {
                    let _n = freq.counts.len();
                    proof {
                        lemma_slot(freq.keys@.len() as int, row as int, 0);
                        lemma_slot(freq.keys@.len() as int, row as int, 4);
                    }
                    let base = row * WORD_LEN;
                    let ghost before = freq;
                    let mut p: usize = 0;
                    while p < WORD_LEN
                        invariant
                            p <= WORD_LEN,
                            row < freq.keys@.len(),
                            base == row * WORD_LEN,
                            base + WORD_LEN <= freq.counts@.len(),
                            freq.counts@.len() <= usize::MAX,
                            freq.keys@ == before.keys@,
                            freq.counts@.len() == before.counts@.len(),
                            freq.wf(),
                            forall|j: int| 0 <= j < freq.counts@.len() && !(base <= j < base + p) ==> freq.counts@[j] == before.counts@[j],
                            forall|j: int| base <= j < base + p ==> freq.counts@[j] == 0,
                        decreases WORD_LEN - p,
                    {
                        freq.counts.set(base + p, 0);
                        p += 1;
                    }
                    assert forall|d: char, i: int| #[trigger] freq.get(d, i)
                        == frequency(ws, ig.take(m as int + 1), d, i) by {
                        if d == c {
                            assert(ig.take(m as int + 1)[m as int] == c);
                        } else {
                            let rd = row_index(freq.keys@, d);
                            if rd >= 0 {
                                assert(freq.keys@[rd] == d);
                                assert(rd != row);
                            }
                            assert(freq.get(d, i) == before.get(d, i));
                            assert(ig.take(m as int + 1).contains(d) == ig.take(m as int).contains(d));
                        }
                    }
                },
                None => {
                    assert forall|d: char, i: int| #[trigger] freq.get(d, i)
                        == frequency(ws, ig.take(m as int + 1), d, i) by {
                        if d == c {
                            assert(ig.take(m as int + 1)[m as int] == c);
                        } else {
                            assert(ig.take(m as int + 1).contains(d) == ig.take(m as int).contains(d));
                        }
                    }
                },
            }
            m += 1;
        }
        assert(self.ignore_letters@.take(m as int) =~= self.ignore_letters@);
        assert(freq.table() =~= frequency_of(*self));
        freq
    }

    /// Orders the words by non-increasing score against `freq`, keeping the
    /// order of words of equal score, and returns the first one.
    pub fn sort(&mut self, freq: &CharFrequency) -> (r: Word)
        requires
            old(self).wf(),
            old(self)@.len() > 0,
            freq.wf(),
        ensures
            final(self).wf(),
            final(self)@.to_multiset() == old(self)@.to_multiset(),
            final(self)@.len() == old(self)@.len(),
            sorted_by_score(final(self)@, freq.table()),
            r@ == final(self)@[0],
            is_first_best(old(self)@, r@, scores(freq.table())),
            stable_order(old(self)@, final(self)@, scores(freq.table())),
            final(self).ignore_letters@ == old(self).ignore_letters@,
    {
        let ghost ws = self@;
        let ghost sc = scores(freq.table());
        let ghost mut i0: int = 0;
        let ghost mut idx: Seq<int> = Seq::empty();
        let mut out: Vec<Word> = Vec::new();
        let mut keys: Vec<u64> = Vec::new();
        let mut k: usize = 0;
        assert(texts(out@) =~= ws.take(0));
        while k < self.words.len()
            invariant
                k <= self.words@.len(),
                ws == self@,
                all_words(ws),
                freq.wf(),
                keys@.len() == out@.len(),
                out@.len() == k,
                forall|j: int| 0 <= j < keys@.len() ==> keys@[j] as nat == word_score(#[trigger] texts(out@)[j], freq.table()),
                forall|a: int, b: int| 0 <= a < b < keys@.len() ==> keys@[a] >= keys@[b],
                texts(out@).to_multiset() == ws.take(k as int).to_multiset(),
                all_words(texts(out@)),
                sc == scores(freq.table()),
                idx.len() == k,
                forall|a: int| 0 <= a < k ==> 0 <= #[trigger] idx[a] < k && texts(out@)[a] == ws[idx[a]],
                forall|a: int, b: int| 0 <= a < b < k ==> #[trigger] idx[a] != #[trigger] idx[b],
                forall|a: int, b: int|
                    0 <= a < b < k && keys@[a] == keys@[b] ==> #[trigger] idx[a] < #[trigger] idx[b],
                k > 0 ==> {
                    &&& 0 <= i0 < k
                    &&& texts(out@)[0] == ws[i0]
                    &&& forall|j: int| 0 <= j < k ==> sc(#[trigger] ws[j]) <= sc(ws[i0])
                    &&& forall|j: int| 0 <= j < i0 ==> sc(#[trigger] ws[j]) < sc(ws[i0])
                },
            decreases self.words@.len() - k,
        {
            assert(is_word(ws[k as int]));
            let key = self.words[k].score(freq);
            let mut p: usize = 0;
            while p < out.len() && keys[p] >= key
                invariant
                    p <= keys@.len(),
                    keys@.len() == out@.len(),
                    forall|j: int| 0 <= j < p ==> keys@[j] >= key,
                decreases keys@.len() - p,
            {
                p += 1;
            }
            let ghost prev_texts = texts(out@);
            let ghost prev_keys = keys@;
            out.insert(p, self.words[k].duplicate());
            keys.insert(p, key);
            assert(texts(out@) =~= prev_texts.insert(p as int, ws[k as int]));
            proof {
                let old_idx = idx;
                idx = idx.insert(p as int, k as int);
                assert forall|a: int| 0 <= a < k + 1 implies 0 <= #[trigger] idx[a] < k + 1 && texts(out@)[a] == ws[idx[a]] by {
                    if a < p {
                        assert(idx[a] == old_idx[a]);
                    } else if a > p {
                        assert(idx[a] == old_idx[a - 1]);
                    }
                }
                assert forall|a: int, b: int| 0 <= a < b < k + 1 implies #[trigger] idx[a] != #[trigger] idx[b] by {
                    if a != p && b != p {
                        let oa = if a < p { a } else { a - 1 };
                        let ob = if b < p { b } else { b - 1 };
                        assert(idx[a] == old_idx[oa] && idx[b] == old_idx[ob]);
                    } else if a == p {
                        assert(idx[b] == old_idx[b - 1]);
                    } else {
                        assert(idx[a] == old_idx[a]);
                    }
                }
                assert forall|a: int, b: int| 0 <= a < b < k + 1 && keys@[a] == keys@[b] implies #[trigger] idx[a] < #[trigger] idx[b] by {
                    if a != p && b != p {
                        let oa = if a < p { a } else { a - 1 };
                        let ob = if b < p { b } else { b - 1 };
                        assert(idx[a] == old_idx[oa] && idx[b] == old_idx[ob]);
                        assert(keys@[a] == prev_keys[oa] && keys@[b] == prev_keys[ob]);
                    } else if a == p {
                        assert(keys@[b] == prev_keys[b - 1]);
                        assert(prev_keys[p as int] < key);
                        assert(prev_keys[p as int] >= prev_keys[b - 1]);
                    } else {
                        assert(idx[a] == old_idx[a]);
                    }
                }
                if p == 0 {
                    if k > 0 {
                        assert(prev_keys[0] < key);
                        assert(prev_keys[0] as nat == word_score(prev_texts[0], freq.table()));
                    }
                    i0 = k as int;
                } else {
                    assert(prev_keys[0] >= key);
                    assert(prev_keys[0] as nat == word_score(prev_texts[0], freq.table()));
                    assert(texts(out@)[0] == prev_texts[0]);
                }
            }
            assert(ws.take(k as int + 1) =~= ws.take(k as int).push(ws[k as int]));
            proof {
                vstd::seq_lib::to_multiset_insert(prev_texts, p as int, ws[k as int]);
                vstd::seq_lib::to_multiset_build(ws.take(k as int), ws[k as int]);
            }
            assert forall|a: int, b: int| 0 <= a < b < keys@.len() implies keys@[a] >= keys@[b] by {
                if b == p {
                    assert(keys@[a] == prev_keys[a]);
                } else if a == p {
                    assert(keys@[b] == prev_keys[b - 1]);
                    assert(prev_keys[p as int] < key);
                }
            }
            assert forall|j: int| 0 <= j < keys@.len() implies keys@[j] as nat == word_score(#[trigger] texts(out@)[j], freq.table()) by {
                if j < p {
                    assert(keys@[j] == prev_keys[j]);
                } else if j > p {
                    assert(keys@[j] == prev_keys[j - 1]);
                }
            }
            k += 1;
        }
        assert(ws.take(k as int) =~= ws);
        self.words = out;
        let r = self.words[0].duplicate();
        assert(is_first_best(ws, r@, sc)) by {
            assert(ws[i0] == r@);
        }
        assert forall|a: int, b: int|
            0 <= a < b < self@.len() && sc(#[trigger] self@[a]) == sc(#[trigger] self@[b]) implies idx[a]
                < idx[b] by {
            assert(keys@[a] as nat == sc(self@[a]));
            assert(keys@[b] as nat == sc(self@[b]));
        }
        assert(stable_order(ws, self@, sc));
        r
    }

}

} // verus!
