//! Guess evaluation: compare a candidate word against the target letter by
//! letter and classify each position.
//!
//! The classification deliberately ignores letter multiplicity: every
//! candidate letter that occurs anywhere in the target, but not at its own
//! position, is marked `WrongPlace`, even when the candidate repeats a letter
//! more often than the target holds it.

use vstd::prelude::*;

verus! {

/// A byte is a letter the game accepts: lowercase ASCII `a` through `z`.
pub open spec fn is_letter(b: u8) -> bool {
    crate::ASCII_A <= b && b <= crate::ASCII_Z
}

/// A playable word: exactly `WORD_LENGTH` lowercase ASCII letters.
pub open spec fn is_word(w: Seq<u8>) -> bool {
    &&& w.len() == crate::WORD_LENGTH
    &&& forall|i: int| 0 <= i < w.len() ==> is_letter(#[trigger] w[i])
}

/// The letter `c` occurs somewhere in `w`.
pub open spec fn contains_letter(w: Seq<u8>, c: u8) -> bool {
    exists|i: int| 0 <= i < w.len() && w[i] == c
}

/// One cell of the board: what the player typed there and, once the row is
/// scored, how that letter relates to the target word.
#[derive(Clone, Copy, PartialEq, Eq, Structural, Debug)]
pub enum LetterState {
    /// Nothing has been typed at this spot yet.
    NoLetter,
    /// A letter has been typed but the row has not been scored yet.
    Letter(u8),
    /// Scored: the letter does not occur in the target word.
    Wrong(u8),
    /// Scored: the letter occurs in the target word, at a different spot.
    WrongPlace(u8),
    /// Scored: the letter matches the target word at this spot.
    Correct(u8),
}

impl Default for LetterState {
    fn default() -> (r: Self)
        ensures
            r == LetterState::NoLetter,
    {
        LetterState::NoLetter
    }
}

/// The score of position `i` of `candidate` against `target`: exact match
/// first, then presence anywhere in the target, else absent.
pub open spec fn score_spec(candidate: Seq<u8>, target: Seq<u8>, i: int) -> LetterState {
    if candidate[i] == target[i] {
        LetterState::Correct(candidate[i])
    } else if contains_letter(target, candidate[i]) {
        LetterState::WrongPlace(candidate[i])
    } else {
        LetterState::Wrong(candidate[i])
    }
}

/// The full scored row for `candidate` against `target`.
pub open spec fn score_seq(candidate: Seq<u8>, target: Seq<u8>) -> Seq<LetterState> {
    Seq::new(candidate.len(), |i: int| score_spec(candidate, target, i))
}

/// Whether the byte `c` occurs in `w`.
pub fn contains_byte(w: &Vec<u8>, c: u8) -> (r: bool)
    ensures
        r == contains_letter(w@, c),
{
    let mut i: usize = 0;
    while i < w.len()
        invariant
            i <= w@.len(),
            forall|k: int| 0 <= k < i ==> w@[k] != c,
        decreases w@.len() - i,
    {
        if w[i] == c {
            return true;
        }
        i += 1;
    }
    false
}

/// Score a candidate guess against the target word.
///
/// The result is a pure function of the two words alone: calling this twice
/// on the same inputs yields the same row.
pub fn score_guess(candidate: &Vec<u8>, target: &Vec<u8>) -> (row: Vec<LetterState>)
    requires
        candidate@.len() == target@.len(),
    ensures
        row@ == score_seq(candidate@, target@),
{
    let mut row: Vec<LetterState> = Vec::new();
    let mut i: usize = 0;
    while i < candidate.len()
        invariant
            i <= candidate@.len(),
            candidate@.len() == target@.len(),
            row@.len() == i,
            forall|k: int| 0 <= k < i ==> row@[k] == score_spec(candidate@, target@, k),
        decreases candidate@.len() - i,
    {
        let c = candidate[i];
        let cell = if c == target[i] {
            LetterState::Correct(c)
        } else if contains_byte(target, c) {
            LetterState::WrongPlace(c)
        } else {
            LetterState::Wrong(c)
        };
        row.push(cell);
        i += 1;
    }
    proof {
        assert(row@ =~= score_seq(candidate@, target@));
    }
    row
}

/// Scoring a word against itself marks every position as correct.
pub proof fn lemma_score_self_all_correct(w: Seq<u8>)
    ensures
        forall|i: int| 0 <= i < w.len() ==> score_seq(w, w)[i] == LetterState::Correct(w[i]),
{
}

/// When the candidate and the target share no letters at all, every
/// position scores as absent.
pub proof fn lemma_score_disjoint_all_wrong(candidate: Seq<u8>, target: Seq<u8>)
    requires
        candidate.len() == target.len(),
        forall|i: int, j: int|
            0 <= i < candidate.len() && 0 <= j < target.len() ==> candidate[i] != target[j],
    ensures
        forall|i: int|
            0 <= i < candidate.len() ==> score_seq(candidate, target)[i] == LetterState::Wrong(
                candidate[i],
            ),
{
    assert forall|i: int| 0 <= i < candidate.len() implies score_seq(candidate, target)[i]
        == LetterState::Wrong(candidate[i]) by {
        assert(candidate[i] != target[i]);
        assert(!contains_letter(target, candidate[i]));
    }
}

/// Scoring has no hidden state: any two rows that satisfy `score_guess`'s
/// contract for the same candidate and target are the same row.
pub proof fn lemma_score_deterministic(
    candidate: Seq<u8>,
    target: Seq<u8>,
    row1: Seq<LetterState>,
    row2: Seq<LetterState>,
)
    requires
        row1 == score_seq(candidate, target),
        row2 == score_seq(candidate, target),
    ensures
        row1 == row2,
{
}

} // verus!
