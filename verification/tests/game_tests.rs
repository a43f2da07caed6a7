use lingo::dict::load_dictionary;
use lingo::game::{
    contains_word, live_preview, pick_target, validate_guess, Game, GameStatus, InvalidGuess, Key,
    Message, StepOutcome,
};
use lingo::score::LetterState;

fn w(s: &str) -> Vec<u8> {
    s.as_bytes().to_vec()
}

fn words(ws: &[&str]) -> Vec<Vec<u8>> {
    ws.iter().map(|s| s.as_bytes().to_vec()).collect()
}

fn type_word(game: &mut Game, dict: &Vec<Vec<u8>>, s: &str) -> StepOutcome {
    for b in s.bytes() {
        assert_eq!(game.step(dict, Key::Letter(b)), StepOutcome::Continue);
    }
    game.step(dict, Key::Enter)
}

#[test]
fn new_game_has_an_empty_board() {
    let game = Game::new(w("apple"));
    assert_eq!(game.attempts_used, 0);
    assert_eq!(game.status, GameStatus::InProgress);
    assert_eq!(game.message, None);
    assert!(game.current.is_empty());
    assert_eq!(game.board.len(), 5);
    for row in &game.board {
        assert_eq!(row.len(), 5);
        for cell in row {
            assert_eq!(*cell, LetterState::NoLetter);
        }
    }
}

#[test]
fn validate_accepts_dictionary_words() {
    let dict = words(&["apple", "beach"]);
    assert_eq!(validate_guess(&w("beach"), &dict), Ok(w("beach")));
}

#[test]
fn validate_rejects_unknown_words() {
    let dict = words(&["apple", "beach"]);
    assert_eq!(validate_guess(&w("zzzzz"), &dict), Err(InvalidGuess::NotInDictionary));
}

#[test]
fn winning_on_the_last_attempt_is_a_win() {
    let mut game = Game::new(w("apple"));
    for _ in 0..4 {
        let st = game.commit_guess(&w("beach"));
        assert_eq!(st, GameStatus::InProgress);
    }
    assert_eq!(game.attempts_used, 4);
    let st = game.commit_guess(&w("apple"));
    assert_eq!(st, GameStatus::Won);
    assert_eq!(game.status, GameStatus::Won);
    assert_eq!(game.message, Some(Message::Won));
}

#[test]
fn exhausting_attempts_loses_and_reveals_the_target() {
    let mut game = Game::new(w("apple"));
    for _ in 0..5 {
        game.commit_guess(&w("beach"));
    }
    assert_eq!(game.attempts_used, 5);
    assert_eq!(game.status, GameStatus::Lost);
    match game.message {
        Some(Message::Lost(revealed)) => assert_eq!(revealed, w("apple")),
        ref other => panic!("expected the lost message, got {:?}", other),
    }
}

#[test]
fn committing_scores_the_row() {
    let mut game = Game::new(w("apple"));
    game.commit_guess(&w("beach"));
    assert_eq!(
        game.board[0],
        vec![
            LetterState::Wrong(b'b'),
            LetterState::WrongPlace(b'e'),
            LetterState::WrongPlace(b'a'),
            LetterState::Wrong(b'c'),
            LetterState::Wrong(b'h'),
        ]
    );
}

#[test]
fn full_round_against_a_forced_target() {
    let dict = load_dictionary(&w("apple\nbeach\nchair\n")).unwrap();
    let mut game = Game::new(w("apple"));

    // An unknown word is rejected: no attempt is consumed.
    assert_eq!(type_word(&mut game, &dict, "zzzzz"), StepOutcome::Continue);
    assert_eq!(game.attempts_used, 0);
    match game.message {
        Some(Message::NotInDictionary(ref rejected)) => assert_eq!(*rejected, w("zzzzz")),
        ref other => panic!("expected the rejection message, got {:?}", other),
    }
    assert!(game.current.is_empty());

    // A dictionary word is scored and uses one attempt.
    assert_eq!(type_word(&mut game, &dict, "beach"), StepOutcome::Continue);
    assert_eq!(game.attempts_used, 1);
    assert_eq!(game.status, GameStatus::InProgress);
    assert_eq!(game.board[0][0], LetterState::Wrong(b'b'));
    assert_eq!(game.board[0][1], LetterState::WrongPlace(b'e'));

    // The target itself wins the game.
    assert_eq!(type_word(&mut game, &dict, "apple"), StepOutcome::Finished);
    assert_eq!(game.status, GameStatus::Won);
    assert_eq!(game.message, Some(Message::Won));
    for (i, cell) in game.board[1].iter().enumerate() {
        assert_eq!(*cell, LetterState::Correct(w("apple")[i]));
    }
}

#[test]
fn escape_abandons_the_game_unchanged() {
    let dict = words(&["apple"]);
    let mut game = Game::new(w("apple"));
    game.step(&dict, Key::Letter(b'a'));
    assert_eq!(game.step(&dict, Key::Escape), StepOutcome::Quit);
    assert_eq!(game.current, w("a"));
    assert_eq!(game.attempts_used, 0);
}

#[test]
fn typing_is_bounded_and_backspace_undoes() {
    let dict = words(&["apple"]);
    let mut game = Game::new(w("apple"));
    for b in "applesauce".bytes() {
        game.step(&dict, Key::Letter(b));
    }
    // The sixth and later letters do not fit.
    assert_eq!(game.current, w("apple"));
    game.step(&dict, Key::Backspace);
    game.step(&dict, Key::Backspace);
    assert_eq!(game.current, w("app"));
    // Backspace on an empty guess is harmless.
    for _ in 0..5 {
        game.step(&dict, Key::Backspace);
    }
    assert_eq!(game.current, w(""));
    // A non-letter key changes nothing but the message.
    game.step(&dict, Key::Other);
    assert_eq!(game.current, w(""));
}

#[test]
fn enter_needs_a_full_word() {
    let dict = words(&["apple"]);
    let mut game = Game::new(w("apple"));
    game.step(&dict, Key::Letter(b'a'));
    assert_eq!(game.step(&dict, Key::Enter), StepOutcome::Continue);
    assert_eq!(game.attempts_used, 0);
    assert_eq!(game.current, w("a"));
}

#[test]
fn preview_shows_typed_letters_then_blanks() {
    let row = live_preview(&w("ab"));
    assert_eq!(
        row,
        vec![
            LetterState::Letter(b'a'),
            LetterState::Letter(b'b'),
            LetterState::NoLetter,
            LetterState::NoLetter,
            LetterState::NoLetter,
        ]
    );
}

#[test]
fn set_preview_mirrors_the_current_guess() {
    let dict = words(&["apple"]);
    let mut game = Game::new(w("apple"));
    game.step(&dict, Key::Letter(b'a'));
    game.step(&dict, Key::Letter(b'b'));
    game.set_preview();
    assert_eq!(game.board[0][0], LetterState::Letter(b'a'));
    assert_eq!(game.board[0][1], LetterState::Letter(b'b'));
    assert_eq!(game.board[0][2], LetterState::NoLetter);
}

#[test]
fn picked_targets_come_from_the_dictionary() {
    let dict = words(&["apple", "beach", "chair"]);
    for _ in 0..20 {
        let target = pick_target(&dict);
        assert!(contains_word(&dict, &target));
    }
}
