use lingo::dict::{alphabet_of, load_dictionary, matching_prefix_words, DictError};

fn text(s: &str) -> Vec<u8> {
    s.as_bytes().to_vec()
}

fn words(ws: &[&str]) -> Vec<Vec<u8>> {
    ws.iter().map(|s| s.as_bytes().to_vec()).collect()
}

#[test]
fn load_keeps_and_sorts_words() {
    let dict = load_dictionary(&text("chair\napple\nbeach\n")).unwrap();
    assert_eq!(dict, words(&["apple", "beach", "chair"]));
}

#[test]
fn load_without_trailing_newline() {
    let dict = load_dictionary(&text("chair\napple\nbeach")).unwrap();
    assert_eq!(dict, words(&["apple", "beach", "chair"]));
}

#[test]
fn load_drops_lines_that_are_not_words() {
    // Wrong length, capital letters, and non-letter bytes are all dropped.
    let dict = load_dictionary(&text("toolong\nab\nApple\nbe-ch\n\nchair\n")).unwrap();
    assert_eq!(dict, words(&["chair"]));
}

#[test]
fn load_rejects_duplicates() {
    let r = load_dictionary(&text("apple\nbeach\napple\n"));
    assert_eq!(r, Err(DictError::DuplicateWord));
}

#[test]
fn load_rejects_duplicates_even_far_apart() {
    let r = load_dictionary(&text("beach\napple\nchair\nwhale\nbeach\n"));
    assert_eq!(r, Err(DictError::DuplicateWord));
}

#[test]
fn duplicate_nonwords_are_no_error() {
    // Lines that are filtered out cannot clash.
    let dict = load_dictionary(&text("ab\nab\napple\n")).unwrap();
    assert_eq!(dict, words(&["apple"]));
}

#[test]
fn loading_twice_gives_the_same_dictionary() {
    let src = text("chair\napple\nbeach\n");
    let first = load_dictionary(&src).unwrap();
    let second = load_dictionary(&src).unwrap();
    assert_eq!(first, second);
}

#[test]
fn empty_text_loads_an_empty_dictionary() {
    let dict = load_dictionary(&text("")).unwrap();
    assert!(dict.is_empty());
}

#[test]
fn prefix_matching_finds_words() {
    let dict = words(&["apple", "beach", "chair"]);
    assert_eq!(matching_prefix_words(&dict, &text("b"), 13), words(&["beach"]));
    assert_eq!(matching_prefix_words(&dict, &text("bea"), 13), words(&["beach"]));
    assert_eq!(matching_prefix_words(&dict, &text("z"), 13), words(&[]));
}

#[test]
fn empty_prefix_matches_everything_up_to_the_limit() {
    let dict = words(&["apple", "beach", "chair"]);
    assert_eq!(matching_prefix_words(&dict, &text(""), 2), words(&["apple", "beach"]));
    assert_eq!(matching_prefix_words(&dict, &text(""), 0), words(&[]));
    assert_eq!(
        matching_prefix_words(&dict, &text(""), 13),
        words(&["apple", "beach", "chair"])
    );
}

#[test]
fn a_full_word_is_its_own_prefix() {
    let dict = words(&["apple", "beach"]);
    assert_eq!(matching_prefix_words(&dict, &text("apple"), 13), words(&["apple"]));
}

#[test]
fn alphabet_lists_each_letter_once_in_order_of_first_use() {
    let dict = words(&["apple", "beach"]);
    // apple: a p (p) l e; beach: b (e) (a) c h
    assert_eq!(alphabet_of(&dict), text("aplebch"));
}

#[test]
fn alphabet_of_empty_dictionary_is_empty() {
    let dict = words(&[]);
    assert!(alphabet_of(&dict).is_empty());
}
