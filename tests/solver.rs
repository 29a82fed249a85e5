use wordle_helper::clue::{Clue, Hint};
use wordle_helper::dictionary::Dictionary;
use wordle_helper::session::{get_guess, hint, reset, Guess, InputError, State};
use wordle_helper::word::Word;

fn word(s: &str) -> Word {
    Word::new(s).expect("a five-letter lowercase word")
}

fn dict(words: &[&str]) -> Dictionary {
    let lines: Vec<String> = words.iter().map(|w| w.to_string()).collect();
    Dictionary::from_lines(&lines)
}

fn texts(d: &Dictionary) -> Vec<String> {
    d.words.iter().map(|w| w.as_str().to_string()).collect()
}

fn clue(c: char, occur: u32, hints: &[Hint]) -> Clue {
    Clue { c, occur, hints: hints.to_vec() }
}

use Hint::{Maybe, No, Yes};

#[test]
fn matching_present_letter() {
    let w = word("crane");
    assert!(w.has(&clue('a', 1, &[Maybe, Maybe, Yes, Maybe, Maybe])));
    assert!(!w.has(&clue('a', 1, &[Maybe, Maybe, No, Maybe, Maybe])));
}

#[test]
fn matching_occurrence_count() {
    let w = word("crane");
    assert!(!w.has(&clue('a', 2, &[Maybe, Maybe, Maybe, Maybe, Maybe])));
    assert!(w.has(&clue('z', 0, &[No, No, No, No, No])));
    assert!(!w.has(&clue('c', 0, &[No, Maybe, Maybe, Maybe, Maybe])));
    assert!(!w.has(&clue('r', 1, &[Yes, Maybe, Maybe, Maybe, Maybe])));
}

#[test]
fn codec_crane_wacwa() {
    let clues = Clue::from_input("crane", "wacwa");
    let got: Vec<(char, u32, Vec<Hint>)> =
        clues.iter().map(|c| (c.c, c.occur, c.hints.clone())).collect();
    let expected = vec![
        ('a', 1, vec![Maybe, Maybe, Yes, Maybe, Maybe]),
        ('c', 1, vec![No, Maybe, Maybe, Maybe, Maybe]),
        ('e', 0, vec![No, No, No, No, No]),
        ('n', 1, vec![Maybe, Maybe, Maybe, No, Maybe]),
        ('r', 0, vec![No, No, No, No, No]),
    ];
    assert_eq!(got, expected);
}

#[test]
fn codec_repeated_letter() {
    // Two wrong-place reports for one letter still count it once.
    let clues = Clue::from_input("eerie", "wwxxc");
    assert_eq!(clues.len(), 3);
    assert_eq!(clues[0].c, 'e');
    assert_eq!(clues[0].occur, 2);
    assert_eq!(clues[0].hints, vec![No, No, Maybe, Maybe, Yes]);
    assert_eq!(clues[1].c, 'i');
    assert_eq!(clues[1].hints, vec![No, No, No, No, No]);
    assert_eq!(clues[2].c, 'r');
    assert_eq!(clues[2].occur, 0);
}

#[test]
fn codec_resolves_absent_letter() {
    let clues = Clue::from_input("crane", "ccccx");
    assert_eq!(clues[2].c, 'e');
    assert!(clues[2].resolved());
    assert_eq!(clues[1].c, 'c');
    assert!(!clues[1].resolved());
    assert_eq!(clues[0].c, 'a');
    assert!(!clues[0].resolved());
}

#[test]
fn word_validation() {
    assert!(Word::new("crane").is_some());
    assert!(Word::new("cran").is_none());
    assert!(Word::new("cranes").is_none());
    assert_eq!(Word::new("Crane").unwrap().as_str(), "Crane");
    assert_eq!(Word::new_lowercase("CrAnE").unwrap().as_str(), "crane");
    assert_eq!(Word::new_lowercase("cr4nE").unwrap().as_str(), "cr4ne");
    assert!(Word::new_lowercase("CRANES").is_none());
    assert_eq!(word("slate").as_str(), "slate");
}

#[test]
fn from_lines_keeps_five_character_lines() {
    let d = dict(&["crane", "", "ab", " slate\r", "toolong", "CRANE", "o'neil", "a-b-c", "  ab  "]);
    assert_eq!(texts(&d), vec!["crane", "slate", "crane", "a-b-c"]);
    assert!(d.ignore_letters.is_empty());
    assert!(Dictionary::empty().words.is_empty());
}

#[test]
fn filter_narrows_and_keeps_order() {
    let mut d = dict(&["crane", "slate", "crate", "trace"]);
    let before = d.words.len();
    d.filter(&clue('c', 1, &[Yes, Maybe, Maybe, Maybe, Maybe]));
    assert!(d.words.len() <= before);
    assert_eq!(texts(&d), vec!["crane", "crate"]);
    assert!(d.ignore_letters.is_empty());
}

#[test]
fn filter_records_resolved_letter() {
    let mut d = dict(&["crane", "slate"]);
    d.filter(&clue('z', 0, &[No, No, No, No, No]));
    assert_eq!(d.ignore_letters, vec!['z']);
    assert_eq!(d.words.len(), 2);
}

#[test]
fn frequency_counts() {
    let d = dict(&["crane", "crate"]);
    let f = d.char_frequency();
    assert_eq!(f.count('c', 0), 2);
    assert_eq!(f.count('n', 3), 1);
    assert_eq!(f.count('t', 3), 1);
    assert_eq!(f.count('e', 4), 2);
    assert_eq!(f.count('e', 0), 0);
    assert_eq!(f.count('z', 2), 0);
}

#[test]
fn resolved_letter_row_is_zero() {
    let mut d = dict(&["abbey", "adore", "alert", "bacon"]);
    d.filter(&clue('a', 1, &[Yes, No, No, No, No]));
    assert_eq!(texts(&d), vec!["abbey", "adore", "alert"]);
    let f = d.char_frequency();
    for i in 0..5 {
        assert_eq!(f.count('a', i), 0);
    }
    assert_eq!(f.count('e', 3), 1);
}

#[test]
fn frequency_counts_every_character() {
    let d = dict(&["a-b-c", "abcde"]);
    let f = d.char_frequency();
    assert_eq!(f.count('a', 0), 2);
    assert_eq!(f.count('b', 1), 1);
    assert_eq!(f.count('b', 2), 1);
    assert_eq!(f.count('-', 1), 1);
    assert_eq!(f.count('-', 3), 1);
    assert_eq!(f.count('-', 0), 0);
    for i in 0..5 {
        let total: u32 = ['a', 'b', 'c', 'd', 'e', '-'].iter().map(|&c| f.count(c, i)).sum();
        assert_eq!(total, 2);
    }
    assert_eq!(word("a-b-c").score(&f), 8 + 8 + 5 + 5);
}

#[test]
fn trimming() {
    assert_eq!(wordle_helper::trim("  crane\t\r"), "crane");
    assert_eq!(wordle_helper::trim("\u{3000}a b\u{A0}"), "a b");
    assert_eq!(wordle_helper::trim("   "), "");
    assert_eq!(wordle_helper::trim(""), "");
}

#[test]
fn score_values() {
    let d = dict(&["crane", "crate"]);
    let f = d.char_frequency();
    assert_eq!(word("crate").score(&f), 36);
    assert_eq!(word("trace").score(&f), 27);
    let one = dict(&["crane"]).char_frequency();
    assert_eq!(word("crane").score(&one), 20);
    // A repeated letter counts once.
    assert_eq!(word("eerie").score(&one), 4 + 1);
}

#[test]
fn sort_is_descending_and_stable() {
    let answers = dict(&["crane", "crate"]);
    let f = answers.char_frequency();
    let mut pool = dict(&["trace", "zzzzz", "crate", "crane"]);
    let best = pool.sort(&f);
    // crate and crane both score 36; crate came first.
    assert_eq!(best.as_str(), "crate");
    assert_eq!(texts(&pool), vec!["crate", "crane", "trace", "zzzzz"]);
}

#[test]
fn no_candidates_when_empty() {
    let mut st = State::new(dict(&["crane", "slate"]));
    assert!(matches!(get_guess(&mut st), Guess::NoCandidates));
    assert!(matches!(reset(&mut st, 'q'), Guess::NoCandidates));
}

#[test]
fn single_candidate_is_the_answer() {
    let mut st = State::new(dict(&["crane", "slate", "scare"]));
    match reset(&mut st, 'c') {
        Guess::Solved(w) => assert_eq!(w.as_str(), "crane"),
        other => panic!("unexpected {:?}", other),
    }
    assert_eq!(texts(&st.valid_guesses), vec!["crane"]);
}

#[test]
fn reset_filters_on_first_letter() {
    let mut st = State::new(dict(&["crane", "slate", "crate", "scare", "trace"]));
    match reset(&mut st, 'c') {
        Guess::Suggest(w) => assert_eq!(w.as_str(), "crane"),
        other => panic!("unexpected {:?}", other),
    }
    assert_eq!(texts(&st.valid_words), vec!["crane", "crate"]);
    assert_eq!(st.valid_guesses.words.len(), 2);
}

#[test]
fn feedback_errors_change_nothing() {
    let mut st = State::new(dict(&["crane", "crate", "cramp"]));
    reset(&mut st, 'c');
    let before = texts(&st.valid_words);
    assert!(matches!(hint(&mut st, "cran", "ccccc"), Err(InputError::LengthMismatch)));
    assert!(matches!(hint(&mut st, "crane", "cccc"), Err(InputError::LengthMismatch)));
    assert!(matches!(hint(&mut st, "Crane", "ccccc"), Err(InputError::InvalidCharacter)));
    assert!(matches!(hint(&mut st, "cr4ne", "ccccc"), Err(InputError::InvalidCharacter)));
    assert_eq!(texts(&st.valid_words), before);
}

#[test]
fn guess_pool_is_not_narrowed() {
    let mut st = State::new(dict(&["crane", "crate", "cramp", "craft"]));
    reset(&mut st, 'c');
    assert_eq!(st.valid_guesses.words.len(), 4);
    // Target "craft": the e of "crane" is absent.
    let r = hint(&mut st, "crane", "cccxx").unwrap();
    assert_eq!(texts(&st.valid_words), vec!["cramp", "craft"]);
    assert!(matches!(r, Guess::Suggest(_)));
    let pool = texts(&st.valid_guesses);
    assert_eq!(pool.len(), 4);
    assert!(pool.contains(&"crane".to_string()));
    assert!(pool.contains(&"crate".to_string()));
    assert_eq!(st.valid_words.ignore_letters, vec!['e', 'n']);
}

/// Feedback on `guess` for `target`, as a game would give it.
fn feedback(target: &str, guess: &str) -> String {
    let t: Vec<char> = target.chars().collect();
    let g: Vec<char> = guess.chars().collect();
    let mut left: Vec<char> = (0..5).filter(|&i| t[i] != g[i]).map(|i| t[i]).collect();
    let mut out = String::new();
    for i in 0..5 {
        if t[i] == g[i] {
            out.push('c');
        } else if let Some(p) = left.iter().position(|&c| c == g[i]) {
            left.remove(p);
            out.push('w');
        } else {
            out.push('x');
        }
    }
    out
}

#[test]
fn target_survives_and_is_found() {
    let words = ["slate", "stare", "spare", "spine", "shine", "shone", "stone", "store"];
    for target in ["stone", "shine", "spare", "store"] {
        let mut st = State::new(dict(&words));
        let mut g = reset(&mut st, 's');
        for _ in 0..6 {
            assert!(texts(&st.valid_words).contains(&target.to_string()));
            match g {
                Guess::Solved(w) => {
                    assert_eq!(w.as_str(), target);
                    break;
                }
                Guess::Suggest(w) => {
                    let fb = feedback(target, w.as_str());
                    g = hint(&mut st, w.as_str(), &fb).unwrap();
                }
                Guess::NoCandidates => panic!("target lost"),
            }
        }
    }
}
