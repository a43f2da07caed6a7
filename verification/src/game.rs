//! The game state machine: a hidden target word, a board of guesses, and a
//! cursor over the current, still unsubmitted guess.
//!
//! The engine consumes abstract key events. Terminal handling turns raw
//! keycodes into [`Key`] values and renders the board; everything the game
//! decides — which letters a guess may hold, when a guess is committed, when
//! the game is won or lost — happens here.

use vstd::prelude::*;

use crate::dict::{clone_word, views_of};
use crate::score::{is_letter, is_word, score_guess, score_seq, LetterState};

verus! {

/// Where the game stands.
#[derive(Clone, Copy, PartialEq, Eq, Structural, Debug)]
pub enum GameStatus {
    /// Guesses remain and the target has not been found.
    InProgress,
    /// A committed guess matched the target.
    Won,
    /// The attempt limit was reached without a win.
    Lost,
}

/// A status line for the player. The terminal layer decides the wording;
/// the variants carry every word the text needs.
#[derive(Clone, PartialEq, Eq, Debug)]
pub enum Message {
    /// The submitted word (carried here) is not in the dictionary.
    NotInDictionary(Vec<u8>),
    /// The target was guessed.
    Won,
    /// All attempts are used; the carried word is the revealed target.
    Lost(Vec<u8>),
}

/// Why a submitted guess was rejected.
#[derive(Clone, Copy, PartialEq, Eq, Structural, Debug)]
pub enum InvalidGuess {
    /// The word is not in the dictionary; the attempt is not consumed.
    NotInDictionary,
}

/// One abstract key event, as the engine understands it.
#[derive(Clone, Copy, PartialEq, Eq, Structural, Debug)]
pub enum Key {
    /// A printable letter was typed.
    Letter(u8),
    /// Remove the last typed letter.
    Backspace,
    /// Submit the current guess.
    Enter,
    /// Abandon the game at once.
    Escape,
    /// Any key the game does not interpret.
    Other,
}

/// What the caller should do after handing the engine a key.
#[derive(Clone, Copy, PartialEq, Eq, Structural, Debug)]
pub enum StepOutcome {
    /// Keep playing: render and read the next key.
    Continue,
    /// The player abandoned the game; no final message is owed.
    Quit,
    /// The game ended in a win or a loss; show the final message.
    Finished,
}

/// The whole state of one game.
pub struct Game {
    /// The hidden word the player must find.
    pub target: Vec<u8>,
    /// One row per allowed attempt; committed rows are scored, the row at
    /// `attempts_used` mirrors the current guess, later rows are empty.
    pub board: Vec<Vec<LetterState>>,
    /// How many guesses have been committed.
    pub attempts_used: usize,
    /// The letters typed for the next guess, not yet submitted.
    pub current: Vec<u8>,
    /// The status line to show with the next render, if any.
    pub message: Option<Message>,
    /// Where the game stands.
    pub status: GameStatus,
}

/// The board rows as mathematical sequences.
pub open spec fn row_views(b: Seq<Vec<LetterState>>) -> Seq<Seq<LetterState>> {
    b.map_values(|r: Vec<LetterState>| r@)
}

/// The in-progress row for a partly typed guess: each typed letter shown as
/// provisional, the remaining cells empty.
pub open spec fn preview_seq(partial: Seq<u8>) -> Seq<LetterState> {
    Seq::new(
        crate::WORD_LENGTH as nat,
        |i: int|
            if i < partial.len() {
                LetterState::Letter(partial[i])
            } else {
                LetterState::NoLetter
            },
    )
}

/// The status a commit ends in: a guess equal to the target wins, even when
/// it is the last allowed attempt; otherwise the game is lost exactly when
/// the attempt limit is reached.
pub open spec fn commit_status_spec(target: Seq<u8>, guess: Seq<u8>, attempts_after: int) -> GameStatus {
    if guess == target {
        GameStatus::Won
    } else if attempts_after >= crate::GUESSES {
        GameStatus::Lost
    } else {
        GameStatus::InProgress
    }
}

impl Game {
    /// The internal invariant: every word has the configured length, the
    /// board has one row per allowed attempt, and no more attempts are used
    /// than allowed — strictly fewer while the game is still in progress.
    pub open spec fn wf(self) -> bool {
        &&& is_word(self.target@)
        &&& self.board@.len() == crate::GUESSES
        &&& (forall|i: int|
            0 <= i < self.board@.len() ==> #[trigger] self.board@[i]@.len()
                == crate::WORD_LENGTH)
        &&& self.attempts_used <= crate::GUESSES
        &&& (self.status == GameStatus::InProgress ==> self.attempts_used < crate::GUESSES)
        &&& self.current@.len() <= crate::WORD_LENGTH
        &&& (forall|i: int| 0 <= i < self.current@.len() ==> is_letter(#[trigger] self.current@[i]))
    }
}

/// An empty board row.
fn empty_row() -> (row: Vec<LetterState>)
    ensures
        row@.len() == crate::WORD_LENGTH,
        forall|i: int| 0 <= i < row@.len() ==> row@[i] == LetterState::NoLetter,
{
    let mut row: Vec<LetterState> = Vec::new();
    while row.len() < crate::WORD_LENGTH
        invariant
            row@.len() <= crate::WORD_LENGTH,
            forall|i: int| 0 <= i < row@.len() ==> row@[i] == LetterState::NoLetter,
        decreases crate::WORD_LENGTH - row@.len(),
    {
        row.push(LetterState::NoLetter);
    }
    row
}

impl Game {
    /// A fresh game for the given target word: an empty board, no attempts
    /// used, nothing typed.
    pub fn new(target: Vec<u8>) -> (g: Game)
        requires
            is_word(target@),
        ensures
            g.wf(),
            g.target@ == target@,
            g.attempts_used == 0,
            g.current@.len() == 0,
            g.message is None,
            g.status == GameStatus::InProgress,
            forall|i: int, j: int|
                0 <= i < g.board@.len() && 0 <= j < g.board@[i]@.len() ==> #[trigger] g.board@[i]@[j]
                    == LetterState::NoLetter,
    {
        let mut board: Vec<Vec<LetterState>> = Vec::new();
        while board.len() < crate::GUESSES
            invariant
                board@.len() <= crate::GUESSES,
                forall|i: int| 0 <= i < board@.len() ==> #[trigger] board@[i]@.len()
                    == crate::WORD_LENGTH,
                forall|i: int, j: int|
                    0 <= i < board@.len() && 0 <= j < board@[i]@.len() ==> #[trigger] board@[i]@[j]
                        == LetterState::NoLetter,
            decreases crate::GUESSES - board@.len(),
        {
            board.push(empty_row());
        }
        Game {
            target,
            board,
            attempts_used: 0,
            current: Vec::new(),
            message: None,
            status: GameStatus::InProgress,
        }
    }
}

/// Whether two words hold the same letters in the same order.
pub fn words_equal(a: &Vec<u8>, b: &Vec<u8>) -> (r: bool)
    ensures
        r == (a@ == b@),
{
    let r = a == b;
    proof {
        if r {
            assert(a@ =~= b@);
        }
        if a@ == b@ {
            assert(forall|i: int| 0 <= i < a@.len() ==> a@[i] == b@[i]);
        }
    }
    r
}

/// Whether the dictionary holds the candidate word.
pub fn contains_word(dict: &Vec<Vec<u8>>, candidate: &Vec<u8>) -> (r: bool)
    ensures
        r == views_of(dict@).contains(candidate@),
{
    let ghost dv = views_of(dict@);
    let mut i: usize = 0;
    while i < dict.len()
        invariant
            i <= dict@.len(),
            dv == views_of(dict@),
            forall|k: int| 0 <= k < i ==> #[trigger] dv[k] != candidate@,
        decreases dict@.len() - i,
    {
        if words_equal(&dict[i], candidate) {
            proof {
                assert(dv[i as int] == candidate@);
            }
            return true;
        }
        i += 1;
    }
    proof {
        assert(!dv.contains(candidate@));
    }
    false
}

/// Check a submitted word against the dictionary. A word that is absent is
/// a recoverable, user-facing failure: the attempt is not consumed.
pub fn validate_guess(candidate: &Vec<u8>, dict: &Vec<Vec<u8>>) -> (r: Result<Vec<u8>, InvalidGuess>)
    ensures
        match r {
            Ok(w) => w@ == candidate@ && views_of(dict@).contains(candidate@),
            Err(e) => e == InvalidGuess::NotInDictionary && !views_of(dict@).contains(candidate@),
        },
{
    if contains_word(dict, candidate) {
        Ok(clone_word(candidate))
    } else {
        Err(InvalidGuess::NotInDictionary)
    }
}

/// Relies on rand::thread_rng and rand::Rng::gen_range: an index drawn
/// uniformly below `n`. Only the bound is promised; gen_range panics on an
/// empty range, so `n` must be positive.
#[verifier::external_body]
fn random_below(n: usize) -> (r: usize)
    requires
        n > 0,
    ensures
        r < n,
{
    let mut rng = rand::thread_rng();
    rand::Rng::gen_range(&mut rng, 0..n)
}

/// Draw a target word at random from the dictionary. The dictionary must be
/// non-empty: with no words, no game can start.
pub fn pick_target(dict: &Vec<Vec<u8>>) -> (w: Vec<u8>)
    requires
        dict@.len() > 0,
    ensures
        exists|i: int| 0 <= i < dict@.len() && w@ == #[trigger] dict@[i]@,
{
    let i = random_below(dict.len());
    clone_word(&dict[i])
}

/// The row to render for a partly typed guess. Purely for display: committed
/// board rows are untouched.
pub fn live_preview(partial: &Vec<u8>) -> (row: Vec<LetterState>)
    requires
        partial@.len() <= crate::WORD_LENGTH,
    ensures
        row@ == preview_seq(partial@),
{
    let mut row: Vec<LetterState> = Vec::new();
    let mut i: usize = 0;
    while i < partial.len()
        invariant
            i <= partial@.len(),
            partial@.len() <= crate::WORD_LENGTH,
            row@.len() == i,
            forall|k: int| 0 <= k < i ==> row@[k] == LetterState::Letter(partial@[k]),
        decreases partial@.len() - i,
    {
        row.push(LetterState::Letter(partial[i]));
        i += 1;
    }
    while row.len() < crate::WORD_LENGTH
        invariant
            partial@.len() <= row@.len() <= crate::WORD_LENGTH,
            forall|k: int| 0 <= k < partial@.len() ==> row@[k] == LetterState::Letter(partial@[k]),
            forall|k: int| partial@.len() <= k < row@.len() ==> row@[k] == LetterState::NoLetter,
        decreases crate::WORD_LENGTH - row@.len(),
    {
        row.push(LetterState::NoLetter);
    }
    proof {
        assert(row@ =~= preview_seq(partial@));
    }
    row
}

impl Game {
    /// Mirror the current guess into the row it will occupy, showing typed
    /// letters as provisional and the rest of the row empty.
    pub fn set_preview(&mut self)
        requires
            old(self).wf(),
            old(self).status == GameStatus::InProgress,
        ensures
            final(self).wf(),
            row_views(final(self).board@) == row_views(old(self).board@).update(
                old(self).attempts_used as int,
                preview_seq(old(self).current@),
            ),
            final(self).target == old(self).target,
            final(self).attempts_used == old(self).attempts_used,
            final(self).current == old(self).current,
            final(self).message == old(self).message,
            final(self).status == old(self).status,
    {
        let row = live_preview(&self.current);
        let slot = self.attempts_used;
        self.board[slot] = row;
        proof {
            assert(row_views(self.board@) =~= row_views(old(self).board@).update(
                old(self).attempts_used as int,
                preview_seq(old(self).current@),
            ));
        }
    }

    /// Score a validated guess into the next board row and consume one
    /// attempt. A guess equal to the target wins — all words are lowercase,
    /// so equality here is exactly case-insensitive equality — and a win on
    /// the last attempt is still a win; otherwise using the final attempt
    /// loses and the message reveals the target.
    pub fn commit_guess(&mut self, candidate: &Vec<u8>) -> (r: GameStatus)
        requires
            old(self).wf(),
            old(self).status == GameStatus::InProgress,
            is_word(candidate@),
        ensures
            final(self).wf(),
            committed_post(*old(self), *final(self), candidate@),
            final(self).current == old(self).current,
            r == final(self).status,
    {
        let row = score_guess(candidate, &self.target);
        let slot = self.attempts_used;
        self.board[slot] = row;
        self.attempts_used = self.attempts_used + 1;
        if words_equal(candidate, &self.target) {
            self.status = GameStatus::Won;
            self.message = Some(Message::Won);
        } else if self.attempts_used == crate::GUESSES {
            self.status = GameStatus::Lost;
            self.message = Some(Message::Lost(clone_word(&self.target)));
        } else {
            self.status = GameStatus::InProgress;
            self.message = None;
        }
        proof {
            assert(row_views(self.board@) =~= row_views(old(self).board@).update(
                old(self).attempts_used as int,
                score_seq(candidate@, old(self).target@),
            ));
        }
        self.status
    }
}

/// How one committed guess transforms the game: one more attempt used, the
/// guess's scored row on the board, and the status and message the outcome
/// dictates.
pub open spec fn committed_post(pre: Game, post: Game, guess: Seq<u8>) -> bool {
    &&& post.target == pre.target
    &&& post.attempts_used == pre.attempts_used + 1
    &&& row_views(post.board@) == row_views(pre.board@).update(
        pre.attempts_used as int,
        score_seq(guess, pre.target@),
    )
    &&& post.status == commit_status_spec(pre.target@, guess, pre.attempts_used + 1)
    &&& (post.status == GameStatus::Won ==> post.message == Some(Message::Won))
    &&& (post.status == GameStatus::Lost ==> (post.message matches Some(Message::Lost(w)) && w@
        == pre.target@))
    &&& (post.status == GameStatus::InProgress ==> post.message is None)
}

/// A guess equal to the target wins, whatever attempt it is — in particular
/// on the last allowed one, where winning takes priority over losing.
pub proof fn lemma_win_takes_priority(target: Seq<u8>, guess: Seq<u8>, attempts_after: int)
    requires
        guess == target,
    ensures
        commit_status_spec(target, guess, attempts_after) == GameStatus::Won,
{
}

/// A commit that does not win and uses the last allowed attempt loses the
/// game.
pub proof fn lemma_loss_when_attempts_exhausted(target: Seq<u8>, guess: Seq<u8>, attempts_after: int)
    requires
        guess != target,
        attempts_after >= crate::GUESSES,
    ensures
        commit_status_spec(target, guess, attempts_after) == GameStatus::Lost,
{
}

/// The current guess after an editing key: a letter is appended while room
/// remains, backspace removes the last letter, anything else changes nothing.
pub open spec fn edited_current(cur: Seq<u8>, key: Key) -> Seq<u8> {
    match key {
        Key::Letter(c) => if is_letter(c) && cur.len() < crate::WORD_LENGTH {
            cur.push(c)
        } else {
            cur
        },
        Key::Backspace => if cur.len() > 0 {
            cur.drop_last()
        } else {
            cur
        },
        _ => cur,
    }
}

/// A key that only edits: the board, the attempts, and the status stay; the
/// status line is cleared; the current guess is edited.
pub open spec fn editing_post(pre: Game, post: Game, key: Key) -> bool {
    &&& post.target == pre.target
    &&& post.board == pre.board
    &&& post.attempts_used == pre.attempts_used
    &&& post.status == pre.status
    &&& post.message is None
    &&& post.current@ == edited_current(pre.current@, key)
}

/// Everything one key event may do to the game, case by case.
pub open spec fn step_post(pre: Game, post: Game, dict: Seq<Seq<u8>>, key: Key, r: StepOutcome) -> bool {
    match key {
        Key::Escape => post == pre && r == StepOutcome::Quit,
        Key::Enter => {
            if pre.current@.len() != crate::WORD_LENGTH {
                editing_post(pre, post, key) && r == StepOutcome::Continue
            } else if !dict.contains(pre.current@) {
                &&& post.target == pre.target
                &&& post.board == pre.board
                &&& post.attempts_used == pre.attempts_used
                &&& post.status == pre.status
                &&& post.current@.len() == 0
                &&& (post.message matches Some(Message::NotInDictionary(w)) && w@ == pre.current@)
                &&& r == StepOutcome::Continue
            } else {
                &&& committed_post(pre, post, pre.current@)
                &&& post.current@.len() == 0
                &&& r == (if post.status == GameStatus::InProgress {
                    StepOutcome::Continue
                } else {
                    StepOutcome::Finished
                })
            }
        },
        _ => editing_post(pre, post, key) && r == StepOutcome::Continue,
    }
}

impl Game {
    /// Advance the game by one key event.
    ///
    /// Letters extend the current guess, backspace shortens it, enter
    /// submits it once it has full length — consuming an attempt only when
    /// the word is in the dictionary — and escape abandons the game.
    pub fn step(&mut self, dict: &Vec<Vec<u8>>, key: Key) -> (r: StepOutcome)
        requires
            old(self).wf(),
            old(self).status == GameStatus::InProgress,
        ensures
            final(self).wf(),
            step_post(*old(self), *final(self), views_of(dict@), key, r),
    {
        match key {
            Key::Escape => StepOutcome::Quit,
            Key::Letter(c) => {
                if c >= crate::ASCII_A && c <= crate::ASCII_Z && self.current.len()
                    < crate::WORD_LENGTH {
                    self.current.push(c);
                }
                self.message = None;
                StepOutcome::Continue
            },
            Key::Backspace => {
                if self.current.len() > 0 {
                    self.current.pop();
                    proof {
                        assert(self.current@ =~= old(self).current@.drop_last());
                    }
                }
                self.message = None;
                StepOutcome::Continue
            },
            Key::Other => {
                self.message = None;
                StepOutcome::Continue
            },
            Key::Enter => {
                if self.current.len() != crate::WORD_LENGTH {
                    self.message = None;
                    return StepOutcome::Continue;
                }
                let guess = clone_word(&self.current);
                self.current = Vec::new();
                if !contains_word(dict, &guess) {
                    self.message = Some(Message::NotInDictionary(guess));
                    return StepOutcome::Continue;
                }
                let status = self.commit_guess(&guess);
                if status == GameStatus::InProgress {
                    StepOutcome::Continue
                } else {
                    StepOutcome::Finished
                }
            },
        }
    }
}

} // verus!
