use lingo::score::{score_guess, LetterState};

fn w(s: &str) -> Vec<u8> {
    s.as_bytes().to_vec()
}

#[test]
fn self_guess_scores_exact_everywhere() {
    for word in ["apple", "beach", "chair", "lever"] {
        let v = w(word);
        let row = score_guess(&v, &v);
        assert_eq!(row.len(), 5);
        for (i, cell) in row.iter().enumerate() {
            assert_eq!(*cell, LetterState::Correct(v[i]));
        }
    }
}

#[test]
fn disjoint_words_score_absent_everywhere() {
    let candidate = w("abcde");
    let target = w("fghij");
    let row = score_guess(&candidate, &target);
    for (i, cell) in row.iter().enumerate() {
        assert_eq!(*cell, LetterState::Wrong(candidate[i]));
    }
}

#[test]
fn scoring_is_deterministic() {
    let candidate = w("beach");
    let target = w("apple");
    let first = score_guess(&candidate, &target);
    let second = score_guess(&candidate, &target);
    assert_eq!(first, second);
}

#[test]
fn beach_against_apple() {
    let row = score_guess(&w("beach"), &w("apple"));
    assert_eq!(
        row,
        vec![
            LetterState::Wrong(b'b'),
            LetterState::WrongPlace(b'e'),
            LetterState::WrongPlace(b'a'),
            LetterState::Wrong(b'c'),
            LetterState::Wrong(b'h'),
        ]
    );
}

#[test]
fn repeated_letters_are_not_multiplicity_corrected() {
    // The target holds two `e`s, the candidate three: the naive rule still
    // marks every misplaced `e` as present rather than downgrading one.
    let row = score_guess(&w("eerie"), &w("lever"));
    assert_eq!(
        row,
        vec![
            LetterState::WrongPlace(b'e'),
            LetterState::Correct(b'e'),
            LetterState::WrongPlace(b'r'),
            LetterState::Wrong(b'i'),
            LetterState::WrongPlace(b'e'),
        ]
    );
}

#[test]
fn default_cell_is_empty() {
    assert_eq!(LetterState::default(), LetterState::NoLetter);
}
