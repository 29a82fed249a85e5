//! Clues, and the codec that turns a guess and its feedback into clues.
use vstd::prelude::*;

use vstd::string::StrSliceExecFns;

use crate::WORD_LEN;

verus! {

/// What is known about one letter at one position.
#[derive(Clone, Copy, Debug, PartialEq, Eq, Structural)]
pub enum Hint {
    /// The letter stands at this position.
    Yes,
    /// The letter does not stand at this position.
    No,
    /// Nothing is known here; the letter may stand at this position.
    Maybe,
    /// Not filled in yet; only seen while a clue is being built.
    Unset,
}

/// Everything one feedback report says about one letter.
#[derive(Clone, Debug)]
pub struct Clue {
    /// The letter the clue is about.
    pub c: char,
    /// Least number of times the letter occurs in the target word.
    pub occur: u32,
    /// One hint per position of the word.
    pub hints: Vec<Hint>,
}

/// Kind of a feedback code: 0 for `'c'` (right position), 1 for `'w'` (present
/// elsewhere), 2 for anything else (absent).
pub open spec fn code_kind(f: char) -> int {
    if f == 'c' {
        0
    } else if f == 'w' {
        1
    } else {
        2
    }
}

/// Number of positions below `n` where the guess holds `c` and the feedback
/// code is of kind `k`.
pub open spec fn count_kind(g: Seq<char>, f: Seq<char>, c: char, k: int, n: int) -> nat
    decreases n,
{
    if n <= 0 {
        0
    } else {
        count_kind(g, f, c, k, n - 1) + if g[n - 1] == c && code_kind(f[n - 1]) == k {
            1nat
        } else {
            0nat
        }
    }
}

/// Number of positions where the guess holds `c` and the feedback has kind `k`.
pub open spec fn total_kind(g: Seq<char>, f: Seq<char>, c: char, k: int) -> nat {
    count_kind(g, f, c, k, WORD_LEN as int)
}

/// The hint that a report gives for letter `c` at position `i`.
pub open spec fn expected_hint(g: Seq<char>, f: Seq<char>, c: char, i: int) -> Hint {
    if g[i] == c {
        if code_kind(f[i]) == 0 {
            Hint::Yes
        } else {
            Hint::No
        }
    } else if total_kind(g, f, c, 2) > 0 {
        Hint::No
    } else {
        Hint::Maybe
    }
}

/// The hints that a report gives for letter `c`.
pub open spec fn expected_hints(g: Seq<char>, f: Seq<char>, c: char) -> Seq<Hint> {
    Seq::new(WORD_LEN as nat, |i: int| expected_hint(g, f, c, i))
}

/// The least count of `c` that a report gives: one per right position, and one
/// more if some occurrence was reported present elsewhere.
pub open spec fn expected_occur(g: Seq<char>, f: Seq<char>, c: char) -> nat {
    total_kind(g, f, c, 0) + if total_kind(g, f, c, 1) > 0 {
        1nat
    } else {
        0nat
    }
}

/// `clue` is the one that the report `f` on guess `g` gives for its letter.
pub open spec fn is_clue_of(clue: Clue, g: Seq<char>, f: Seq<char>) -> bool {
    &&& clue.hints@ == expected_hints(g, f, clue.c)
    &&& clue.occur as nat == expected_occur(g, f, clue.c)
}

/// `s` holds `c` at some position.
pub open spec fn holds(s: Seq<char>, c: char) -> bool {
    exists|i: int| 0 <= i < s.len() && s[i] == c
}

/// `cs` lists the distinct letters of `g` in ascending order.
pub open spec fn sorted_letters_of(cs: Seq<char>, g: Seq<char>) -> bool {
    &&& forall|a: int, b: int| 0 <= a < b < cs.len() ==> cs[a] < cs[b]
    &&& forall|k: int| 0 <= k < cs.len() ==> holds(g, #[trigger] cs[k])
    &&& forall|j: int| 0 <= j < g.len() ==> holds(cs, #[trigger] g[j])
}

impl Clue {
    /// The clue has one hint per position.
    pub open spec fn wf(&self) -> bool {
        self.hints@.len() == WORD_LEN
    }

    /// Every position has a definite hint: the letter says nothing more.
    pub open spec fn is_resolved(&self) -> bool {
        forall|i: int|
            0 <= i < self.hints@.len() ==> self.hints@[i] != Hint::Maybe && self.hints@[i]
                != Hint::Unset
    }

    /// Whether every position has a definite hint.
    pub fn resolved(&self) -> (r: bool)
        ensures
            r == self.is_resolved(),
    {
        let mut i: usize = 0;
        while i < self.hints.len()
            invariant
                i <= self.hints@.len(),
                forall|j: int|
                    0 <= j < i ==> self.hints@[j] != Hint::Maybe && self.hints@[j] != Hint::Unset,
            decreases self.hints@.len() - i,
        {
            if self.hints[i] == Hint::Maybe || self.hints[i] == Hint::Unset {
                return false;
            }
            i += 1;
        }
        true
    }

    /// The clue that the feedback `f` on guess `g` gives for letter `c`.
    pub fn for_letter(g: &Vec<char>, f: &Vec<char>, c: char) -> (r: Clue)
        requires
            g@.len() == WORD_LEN,
            f@.len() == WORD_LEN,
        ensures
            r.c == c,
            r.wf(),
            is_clue_of(r, g@, f@),
    {
        let mut hints: Vec<Hint> = Vec::new();
        let mut correct: u32 = 0;
        let mut wrong_place: u32 = 0;
        let mut wrong: u32 = 0;
        let mut i: usize = 0;
        while i < WORD_LEN
            invariant
                i <= WORD_LEN,
                g@.len() == WORD_LEN,
                f@.len() == WORD_LEN,
                hints@.len() == i,
                correct as nat == count_kind(g@, f@, c, 0, i as int),
                wrong_place as nat == count_kind(g@, f@, c, 1, i as int),
                wrong as nat == count_kind(g@, f@, c, 2, i as int),
                correct <= i && wrong_place <= i && wrong <= i,
                forall|j: int|
                    0 <= j < i ==> #[trigger] hints@[j] == if g@[j] == c {
                        if code_kind(f@[j]) == 0 {
                            Hint::Yes
                        } else {
                            Hint::No
                        }
                    } else {
                        Hint::Unset
                    },
            decreases WORD_LEN - i,
        {
            if g[i] == c {
                if f[i] == 'c' {
                    correct += 1;
                    hints.push(Hint::Yes);
                } else if f[i] == 'w' {
                    wrong_place += 1;
                    hints.push(Hint::No);
                } else {
                    wrong += 1;
                    hints.push(Hint::No);
                }
            } else {
                hints.push(Hint::Unset);
            }
            i += 1;
        }
        let replace = if wrong > 0 {
            Hint::No
        } else {
            Hint::Maybe
        };
        let mut j: usize = 0;
        while j < WORD_LEN
            invariant
                j <= WORD_LEN,
                g@.len() == WORD_LEN,
                f@.len() == WORD_LEN,
                hints@.len() == WORD_LEN,
                wrong as nat == total_kind(g@, f@, c, 2),
                replace == (if wrong > 0 { Hint::No } else { Hint::Maybe }),
                forall|k: int| 0 <= k < j ==> #[trigger] hints@[k] == expected_hint(g@, f@, c, k),
                forall|k: int|
                    j <= k < WORD_LEN ==> #[trigger] hints@[k] == if g@[k] == c {
                        if code_kind(f@[k]) == 0 {
                            Hint::Yes
                        } else {
                            Hint::No
                        }
                    } else {
                        Hint::Unset
                    },
            decreases WORD_LEN - j,
        {
            if hints[j] == Hint::Unset {
                hints.set(j, replace);
            }
            j += 1;
        }
        let occur: u32 = if wrong_place > 0 {
            correct + 1
        } else {
            correct
        };
        let r = Clue { c, occur, hints };
        assert(r.hints@ =~= expected_hints(g@, f@, c));
        r
    }
}

/// The characters of `s`, one by one.
pub fn chars_of(s: &str) -> (r: Vec<char>)
    ensures
        r@ == s@,
{
    let n = s.unicode_len();
    let mut r: Vec<char> = Vec::new();
    let mut i: usize = 0;
    while i < n
        invariant
            n == s@.len(),
            i <= n,
            r@ == s@.subrange(0, i as int),
        decreases n - i,
    {
        r.push(s.get_char(i));
        i += 1;
        assert(r@ =~= s@.subrange(0, i as int));
    }
    assert(r@ =~= s@);
    r
}

/// The distinct characters of `g`, in ascending order.
pub fn sorted_letters(g: &Vec<char>) -> (r: Vec<char>)
    ensures
        sorted_letters_of(r@, g@),
{
    let mut r: Vec<char> = Vec::new();
    let mut i: usize = 0;
    while i < g.len()
        invariant
            i <= g@.len(),
            forall|a: int, b: int| 0 <= a < b < r@.len() ==> r@[a] < r@[b],
            forall|k: int| 0 <= k < r@.len() ==> holds(g@, #[trigger] r@[k]),
            forall|j: int| 0 <= j < i ==> holds(r@, #[trigger] g@[j]),
        decreases g@.len() - i,
    {
        let ch = g[i];
        let mut p: usize = 0;
        while p < r.len() && r[p] < ch
            invariant
                p <= r@.len(),
                forall|k: int| 0 <= k < p ==> r@[k] < ch,
            decreases r@.len() - p,
        {
            p += 1;
        }
        if p < r.len() && r[p] == ch {
            assert(holds(r@, g@[i as int]));
        } else {
            let ghost old_r = r@;
            r.insert(p, ch);
            assert(r@[p as int] == ch);
            assert(holds(r@, g@[i as int]));
            assert forall|j: int| 0 <= j <= i implies holds(r@, #[trigger] g@[j]) by {
                if j < i {
                    let k = choose|k: int| 0 <= k < old_r.len() && old_r[k] == g@[j];
                    if k < p {
                        assert(r@[k] == g@[j]);
                    } else {
                        assert(r@[k + 1] == g@[j]);
                    }
                }
            }
            assert forall|k: int| 0 <= k < r@.len() implies holds(g@, #[trigger] r@[k]) by {
                if k < p {
                    assert(r@[k] == old_r[k]);
                } else if k == p {
                    assert(g@[i as int] == r@[k]);
                } else {
                    assert(r@[k] == old_r[k - 1]);
                }
            }
        }
        i += 1;
    }
    r
}

impl Clue {
    /// The clues that the feedback `inp` on guess `guess` gives, one per
    /// distinct letter of the guess, in ascending order of letter.
    ///
    /// The code `'c'` marks a letter in its right position, `'w'` a letter
    /// present elsewhere, and any other character a letter that is absent.
    pub fn from_input(guess: &str, inp: &str) -> (r: Vec<Clue>)
        requires
            guess@.len() == WORD_LEN,
            inp@.len() == WORD_LEN,
        ensures
            sorted_letters_of(r@.map_values(|cl: Clue| cl.c), guess@),
            forall|k: int|
                0 <= k < r@.len() ==> (#[trigger] r@[k]).wf() && is_clue_of(r@[k], guess@, inp@),
    {
        let g = chars_of(guess);
        let f = chars_of(inp);
        let letters = sorted_letters(&g);
        let mut clues: Vec<Clue> = Vec::new();
        let mut k: usize = 0;
        while k < letters.len()
            invariant
                k <= letters@.len(),
                g@ == guess@,
                f@ == inp@,
                g@.len() == WORD_LEN,
                f@.len() == WORD_LEN,
                clues@.map_values(|cl: Clue| cl.c) == letters@.subrange(0, k as int),
                forall|j: int|
                    0 <= j < clues@.len() ==> (#[trigger] clues@[j]).wf() && is_clue_of(
                        clues@[j],
                        guess@,
                        inp@,
                    ),
            decreases letters@.len() - k,
        {
            let clue = Clue::for_letter(&g, &f, letters[k]);
            let ghost prev = clues@;
            clues.push(clue);
            k += 1;
            assert(clues@.map_values(|cl: Clue| cl.c) =~= prev.map_values(|cl: Clue| cl.c).push(
                letters@[k - 1],
            ));
            assert(clues@.map_values(|cl: Clue| cl.c) =~= letters@.subrange(0, k as int));
        }
        assert(letters@.subrange(0, k as int) =~= letters@);
        clues
    }
}

} // verus!
