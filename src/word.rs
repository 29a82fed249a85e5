//! Candidate words: matching against a clue, and scoring against a table of
//! letter frequencies.
use vstd::prelude::*;
use vstd::string::StringExecFns;

use crate::clue::{chars_of, Clue, Hint};
use vstd::string::StrSliceExecFns;

use crate::{count_upto, is_letter, lowered, occurrences, WORD_LEN};

verus! {

/// A candidate word: `WORD_LEN` characters, normally lowercase letters.
#[derive(Clone, Debug)]
pub struct Word {
    pub word: String,
}

/// `w` has the length of a word.
pub open spec fn is_word(w: Seq<char>) -> bool {
    w.len() == WORD_LEN
}

/// `w` is `WORD_LEN` lowercase letters.
pub open spec fn is_lower_word(w: Seq<char>) -> bool {
    &&& w.len() == WORD_LEN
    &&& forall|i: int| 0 <= i < w.len() ==> is_letter(#[trigger] w[i])
}

/// Relies on `str::to_ascii_lowercase`: each ASCII capital becomes its
/// lowercase letter, every other character stays.
#[verifier::external_body]
fn to_ascii_lowercase(s: &str) -> (r: String)
    ensures
        r@ == lowered(s@),
{
    s.to_ascii_lowercase()
}

/// Whether `s` is `WORD_LEN` lowercase letters.
pub fn is_lowercase_word(s: &str) -> (r: bool)
    ensures
        r == is_lower_word(s@),
{
    let cs = chars_of(s);
    if cs.len() != WORD_LEN {
        return false;
    }
    let mut i: usize = 0;
    while i < WORD_LEN
        invariant
            i <= WORD_LEN,
            cs@ == s@,
            cs@.len() == WORD_LEN,
            forall|j: int| 0 <= j < i ==> is_letter(#[trigger] s@[j]),
        decreases WORD_LEN - i,
    {
        if !('a' <= cs[i] && cs[i] <= 'z') {
            return false;
        }
        i += 1;
    }
    true
}

/// The word `w` agrees with each of `hints` for letter `c` and holds `c` at
/// least `occur` times.
pub open spec fn satisfies_hints(w: Seq<char>, c: char, occur: nat, hints: Seq<Hint>) -> bool {
    &&& forall|i: int|
        0 <= i < w.len() ==> (#[trigger] hints[i] == Hint::Yes ==> w[i] == c) && (hints[i]
            == Hint::No ==> w[i] != c)
    &&& occurrences(w, c) >= occur
}

/// The word `w` agrees with every hint of `clue` and holds its letter at least
/// `clue.occur` times.
pub open spec fn satisfies(w: Seq<char>, clue: Clue) -> bool {
    satisfies_hints(w, clue.c, clue.occur as nat, clue.hints@)
}

/// Counts of characters by position, over some set of words: the characters
/// that have a row are `keys`, each once, and the count of `keys[r]` at
/// position `i` stands at `r * WORD_LEN + i`.
pub struct CharFrequency {
    pub keys: Vec<char>,
    pub counts: Vec<u32>,
}

/// Row of `c` among `keys`, or -1 if it has none.
pub open spec fn row_index(keys: Seq<char>, c: char) -> int {
    if exists|r: int| 0 <= r < keys.len() && keys[r] == c {
        choose|r: int| 0 <= r < keys.len() && keys[r] == c
    } else {
        -1
    }
}

/// No character stands twice in `keys`.
pub open spec fn unique_keys(keys: Seq<char>) -> bool {
    forall|a: int, b: int| 0 <= a < b < keys.len() ==> keys[a] != keys[b]
}

/// In a list without repeats, the row of a character is where it stands.
pub proof fn lemma_row_index(keys: Seq<char>, r: int)
    requires
        unique_keys(keys),
        0 <= r < keys.len(),
    ensures
        row_index(keys, keys[r]) == r,
{
    let c = keys[r];
    assert(exists|q: int| 0 <= q < keys.len() && keys[q] == c);
    let q = choose|q: int| 0 <= q < keys.len() && keys[q] == c;
    if q != r {
        if q < r {
            assert(keys[q] != keys[r]);
        } else {
            assert(keys[r] != keys[q]);
        }
    }
}

/// A slot of row `r` lies inside a table of `n` rows.
pub proof fn lemma_slot(n: int, r: int, i: int)
    requires
        0 <= r < n,
        0 <= i < WORD_LEN,
    ensures
        0 <= r * WORD_LEN + i < n * WORD_LEN,
{
    assert(r * WORD_LEN + i < n * WORD_LEN) by (nonlinear_arith)
        requires
            0 <= r < n,
            0 <= i < WORD_LEN,
            WORD_LEN == 5,
    ;
    assert(0 <= r * WORD_LEN) by (nonlinear_arith)
        requires
            0 <= r,
    ;
}

impl CharFrequency {
    /// One row of `WORD_LEN` counts per key; no key twice.
    pub open spec fn wf(&self) -> bool {
        &&& self.counts@.len() == self.keys@.len() * WORD_LEN
        &&& unique_keys(self.keys@)
    }

    /// The count of character `c` at position `i`; zero for a character
    /// without a row or a position outside the word.
    pub open spec fn get(&self, c: char, i: int) -> nat {
        let r = row_index(self.keys@, c);
        if r >= 0 && 0 <= i < WORD_LEN {
            self.counts@[r * WORD_LEN + i] as nat
        } else {
            0
        }
    }

    /// The table as a function of character and position.
    pub open spec fn table(&self) -> spec_fn(char, int) -> nat {
        |c: char, i: int| self.get(c, i)
    }

    /// A table with no rows.
    pub fn empty() -> (r: CharFrequency)
        ensures
            r.wf(),
            r.keys@.len() == 0,
            forall|c: char, i: int| #[trigger] r.get(c, i) == 0,
    {
        CharFrequency { keys: Vec::new(), counts: Vec::new() }
    }

    /// The row of `c`, if it has one.
    pub fn find(&self, c: char) -> (r: Option<usize>)
        requires
            self.wf(),
        ensures
            r.is_some() ==> r.unwrap() < self.keys@.len() && self.keys@[r.unwrap() as int] == c
                && row_index(self.keys@, c) == r.unwrap(),
            r.is_none() ==> row_index(self.keys@, c) == -1,
    {
        let mut r: usize = 0;
        while r < self.keys.len()
            invariant
                r <= self.keys@.len(),
                self.wf(),
                forall|q: int| 0 <= q < r ==> self.keys@[q] != c,
            decreases self.keys@.len() - r,
        {
            if self.keys[r] == c {
                proof {
                    lemma_row_index(self.keys@, r as int);
                }
                return Some(r);
            }
            r += 1;
        }
        None
    }

    /// Adds a row of zeros for `c`, which has none.
    pub fn add_row(&mut self, c: char) -> (r: usize)
        requires
            old(self).wf(),
            row_index(old(self).keys@, c) == -1,
        ensures
            final(self).wf(),
            final(self).keys@ == old(self).keys@.push(c),
            r == old(self).keys@.len(),
            row_index(final(self).keys@, c) == r,
            forall|j: int| 0 <= j < old(self).counts@.len() ==> final(self).counts@[j] == old(self).counts@[j],
            forall|j: int| old(self).counts@.len() <= j < final(self).counts@.len() ==> final(self).counts@[j] == 0,
            forall|d: char, i: int| #[trigger] final(self).get(d, i) == old(self).get(d, i),
    {
        let ghost old_keys = self.keys@;
        let ghost old_self = *self;
        let r = self.keys.len();
        assert forall|q: int| 0 <= q < old_keys.len() implies old_keys[q] != c by {
            if old_keys[q] == c {
                assert(exists|x: int| 0 <= x < old_keys.len() && old_keys[x] == c);
            }
        }
        self.keys.push(c);
        let mut p: usize = 0;
        while p < WORD_LEN
            invariant
                p <= WORD_LEN,
                self.keys@ == old_keys.push(c),
                self.counts@.len() == old_self.counts@.len() + p,
                old_self.counts@.len() == old_keys.len() * WORD_LEN,
                forall|j: int| 0 <= j < old_self.counts@.len() ==> self.counts@[j] == old_self.counts@[j],
                forall|j: int| old_self.counts@.len() <= j < self.counts@.len() ==> self.counts@[j] == 0,
            decreases WORD_LEN - p,
        {
            self.counts.push(0);
            p += 1;
        }
        proof {
            lemma_row_index(self.keys@, r as int);
            assert forall|d: char, i: int| #[trigger] self.get(d, i) == old_self.get(d, i) by {
                if d == c {
                } else if exists|q: int| 0 <= q < old_keys.len() && old_keys[q] == d {
                    let q = choose|q: int| 0 <= q < old_keys.len() && old_keys[q] == d;
                    lemma_row_index(old_keys, q);
                    lemma_row_index(self.keys@, q);
                } else {
                    assert forall|q: int| 0 <= q < self.keys@.len() implies self.keys@[q] != d by {
                        if q < old_keys.len() {
                            assert(old_keys[q] == self.keys@[q]);
                        }
                    }
                }
            }
        }
        r
    }

    /// The count of character `c` at position `i`.
    pub fn count(&self, c: char, i: usize) -> (r: u32)
        requires
            self.wf(),
            i < WORD_LEN,
        ensures
            r as nat == self.get(c, i as int),
    {
        match self.find(c) {
            Some(row) => {
                let _n = self.counts.len();
                proof {
                    lemma_slot(self.keys@.len() as int, row as int, i as int);
                }
                self.counts[row * WORD_LEN + i]
            },
            None => 0,
        }
    }
}

/// Weight of position `i` for letter `c` in word `w`: an exact match counts
/// four times.
pub open spec fn weight(w: Seq<char>, c: char, i: int) -> nat {
    if w[i] == c {
        4
    } else {
        1
    }
}

/// Score that letter `c` of `w` draws from positions below `n`.
pub open spec fn letter_score(w: Seq<char>, freq: spec_fn(char, int) -> nat, c: char, n: int) -> nat
    decreases n,
{
    if n <= 0 {
        0
    } else {
        letter_score(w, freq, c, n - 1) + weight(w, c, n - 1) * freq(c, n - 1)
    }
}

/// Position `j` holds the first occurrence of its letter in `w`.
pub open spec fn is_first(w: Seq<char>, j: int) -> bool {
    forall|k: int| 0 <= k < j ==> w[k] != w[j]
}

/// Score of the distinct letters among the first `n` positions of `w`.
pub open spec fn score_upto(w: Seq<char>, freq: spec_fn(char, int) -> nat, n: int) -> nat
    decreases n,
{
    if n <= 0 {
        0
    } else {
        score_upto(w, freq, n - 1) + if is_first(w, n - 1) {
            letter_score(w, freq, w[n - 1], WORD_LEN as int)
        } else {
            0
        }
    }
}

/// Score of `w`: over its distinct letters, the weighted counts of each.
pub open spec fn word_score(w: Seq<char>, freq: spec_fn(char, int) -> nat) -> nat {
    score_upto(w, freq, WORD_LEN as int)
}

impl View for Word {
    type V = Seq<char>;

    open spec fn view(&self) -> Seq<char> {
        self.word@
    }
}

impl Word {
    /// The word spelled by `s`, if it has `WORD_LEN` characters.
    pub fn new(s: &str) -> (r: Option<Word>)
        ensures
            r.is_some() == is_word(s@),
            r.is_some() ==> r.unwrap()@ == s@,
    {
        if s.unicode_len() != WORD_LEN {
            return None;
        }
        Some(Word { word: String::from_str(s) })
    }

    /// The word spelled by `s` with ASCII capitals made lowercase, if it has
    /// `WORD_LEN` characters.
    pub fn new_lowercase(s: &str) -> (r: Option<Word>)
        ensures
            r.is_some() == is_word(s@),
            r.is_some() ==> r.unwrap()@ == lowered(s@),
    {
        if s.unicode_len() != WORD_LEN {
            return None;
        }
        Some(Word { word: to_ascii_lowercase(s) })
    }

    /// The word as text.
    pub fn as_str(&self) -> (r: &str)
        ensures
            r@ == self@,
    {
        self.word.as_str()
    }

    /// A copy of the word.
    pub fn duplicate(&self) -> (r: Word)
        ensures
            r@ == self@,
    {
        Word { word: self.word.clone() }
    }

    /// Whether the word agrees with the clue.
    pub fn has(&self, clue: &Clue) -> (r: bool)
        requires
            self@.len() == WORD_LEN,
            clue.wf(),
        ensures
            r == satisfies(self@, *clue),
    {
        let w = chars_of(self.as_str());
        let mut occur: u32 = 0;
        let mut i: usize = 0;
        while i < WORD_LEN
            invariant
                i <= WORD_LEN,
                w@ == self@,
                w@.len() == WORD_LEN,
                clue.wf(),
                occur as nat == count_upto(w@, clue.c, i as int),
                occur <= i,
                forall|j: int|
                    0 <= j < i ==> (#[trigger] clue.hints@[j] == Hint::Yes ==> w@[j] == clue.c) && (
                    clue.hints@[j] == Hint::No ==> w@[j] != clue.c),
            decreases WORD_LEN - i,
        {
            let c = w[i];
            if c == clue.c {
                occur += 1;
            }
            match clue.hints[i] {
                Hint::Yes => {
                    if c != clue.c {
                        return false;
                    }
                },
                Hint::No => {
                    if c == clue.c {
                        return false;
                    }
                },
                _ => {},
            }
            i += 1;
        }
        if occur < clue.occur {
            return false;
        }
        true
    }

    /// Score of the word against a table of letter frequencies: for each
    /// distinct letter, four times its count at the positions where the word
    /// holds it, plus its count at every other position.
    pub fn score(&self, freq: &CharFrequency) -> (r: u64)
        requires
            self@.len() == WORD_LEN,
            freq.wf(),
        ensures
            r as nat == word_score(self@, freq.table()),
    {
        let w = chars_of(self.as_str());
        let mut total: u64 = 0;
        let mut j: usize = 0;
        while j < WORD_LEN
            invariant
                j <= WORD_LEN,
                w@ == self@,
                w@.len() == WORD_LEN,
                freq.wf(),
                total as nat == score_upto(w@, freq.table(), j as int),
                total <= 85899345900 * j,
            decreases WORD_LEN - j,
        {
            let c = w[j];
            let mut first = true;
            let mut k: usize = 0;
            while k < j
                invariant
                    k <= j,
                    j < WORD_LEN,
                    w@.len() == WORD_LEN,
                    c == w@[j as int],
                    first == (forall|m: int| 0 <= m < k ==> w@[m] != c),
                decreases j - k,
            {
                if w[k] == c {
                    first = false;
                }
                k += 1;
            }
            if first {
                let mut s: u64 = 0;
                let mut i: usize = 0;
                while i < WORD_LEN
                    invariant
                        i <= WORD_LEN,
                        w@.len() == WORD_LEN,
                        freq.wf(),
                        s as nat == letter_score(w@, freq.table(), c, i as int),
                        s <= 17179869180 * i,
                    decreases WORD_LEN - i,
                {
                    let n = freq.count(c, i) as u64;
                    if w[i] == c {
                        assert(weight(w@, c, i as int) * freq.table()(c, i as int) == 4 * n);
                        s = s + 4 * n;
                    } else {
                        assert(weight(w@, c, i as int) == 1);
                        assert(weight(w@, c, i as int) * freq.table()(c, i as int) == n)
                            by (nonlinear_arith)
                            requires
                                weight(w@, c, i as int) == 1,
                                freq.table()(c, i as int) == n,
                        ;
                        s = s + n;
                    }
                    i += 1;
                }
                total = total + s;
            }
            j += 1;
        }
        total
    }
}

} // verus!
