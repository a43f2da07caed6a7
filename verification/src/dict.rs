//! Dictionary loading: split a newline-delimited word list into lines, keep
//! the entries that are playable words, sort them, and reject a list that
//! contains the same word twice.
//!
//! The input is plain bytes, one word per line, separated by the line-feed
//! byte. A line that is not exactly `WORD_LENGTH` lowercase ASCII letters
//! (city names with capitals, accented entries, lines of another length) is
//! silently dropped; duplicates among the remaining words are a fatal error,
//! since the game's data must be a set.

use vstd::prelude::*;
use vstd::multiset::Multiset;
use vstd::relations::{sorted_by, total_ordering};
use vstd::seq_lib::lemma_multiset_commutative;
use vstd::seq_lib::to_multiset_remove;

use crate::score::is_word;

verus! {

/// ASCII line feed, the separator between dictionary entries.
pub const NEWLINE: u8 = 10;

/// The mathematical contents of a list of words: each vector as its sequence.
pub open spec fn views_of(ws: Seq<Vec<u8>>) -> Seq<Seq<u8>> {
    ws.map_values(|w: Vec<u8>| w@)
}

/// Splits `text` into lines, carrying the partial line `cur` that was read
/// before `text`. A final line without a trailing separator still counts;
/// a trailing separator does not open an empty final line.
pub open spec fn split_lines_rec(text: Seq<u8>, cur: Seq<u8>) -> Seq<Seq<u8>>
    decreases text.len(),
{
    if text.len() == 0 {
        if cur.len() == 0 {
            Seq::empty()
        } else {
            seq![cur]
        }
    } else if text[0] == NEWLINE {
        seq![cur] + split_lines_rec(text.drop_first(), Seq::empty())
    } else {
        split_lines_rec(text.drop_first(), cur.push(text[0]))
    }
}

/// The lines of `text`: maximal runs of bytes between line-feed separators.
pub open spec fn lines_of(text: Seq<u8>) -> Seq<Seq<u8>> {
    split_lines_rec(text, Seq::empty())
}

/// Split raw dictionary text into its lines.
pub fn split_lines(text: &Vec<u8>) -> (lines: Vec<Vec<u8>>)
    ensures
        views_of(lines@) == lines_of(text@),
{
    let mut lines: Vec<Vec<u8>> = Vec::new();
    let mut cur: Vec<u8> = Vec::new();
    let mut i: usize = 0;
    proof {
        assert(text@.skip(0) =~= text@);
        assert(views_of(lines@) =~= Seq::<Seq<u8>>::empty());
        assert(Seq::<Seq<u8>>::empty() + split_lines_rec(text@, cur@) =~= split_lines_rec(
            text@,
            cur@,
        ));
    }
    while i < text.len()
        invariant
            i <= text@.len(),
            lines_of(text@) == views_of(lines@) + split_lines_rec(text@.skip(i as int), cur@),
        decreases text@.len() - i,
    {
        let ghost old_lines = lines@;
        let ghost old_cur = cur@;
        let ghost rest = text@.skip(i as int);
        let b = text[i];
        proof {
            assert(rest.len() > 0);
            assert(rest[0] == text@[i as int]);
            assert(rest.drop_first() =~= text@.skip(i as int + 1));
        }
        if b == NEWLINE {
            lines.push(cur);
            cur = Vec::new();
            proof {
                assert(views_of(lines@) =~= views_of(old_lines).push(old_cur));
                assert(split_lines_rec(rest, old_cur) == seq![old_cur] + split_lines_rec(
                    text@.skip(i as int + 1),
                    cur@,
                ));
                assert(views_of(old_lines) + (seq![old_cur] + split_lines_rec(
                    text@.skip(i as int + 1),
                    cur@,
                )) =~= views_of(lines@) + split_lines_rec(text@.skip(i as int + 1), cur@));
            }
        } else {
            cur.push(b);
            proof {
                assert(split_lines_rec(rest, old_cur) == split_lines_rec(
                    text@.skip(i as int + 1),
                    cur@,
                ));
            }
        }
        i += 1;
    }
    proof {
        assert(text@.skip(i as int) =~= Seq::<u8>::empty());
    }
    if cur.len() > 0 {
        let ghost old_lines = lines@;
        let ghost old_cur = cur@;
        lines.push(cur);
        proof {
            assert(views_of(lines@) =~= views_of(old_lines).push(old_cur));
            assert(views_of(old_lines).push(old_cur) =~= views_of(old_lines) + seq![old_cur]);
        }
    } else {
        proof {
            assert(views_of(lines@) + Seq::<Seq<u8>>::empty() =~= views_of(lines@));
        }
    }
    lines
}

/// The lines that are playable words, in order of appearance.
pub open spec fn filter_words(ls: Seq<Seq<u8>>) -> Seq<Seq<u8>> {
    ls.filter(|w: Seq<u8>| is_word(w))
}

/// The playable words of raw dictionary text, in order of appearance,
/// duplicates included.
pub open spec fn valid_words_of(text: Seq<u8>) -> Seq<Seq<u8>> {
    filter_words(lines_of(text))
}

/// Whether `w` is a playable word: exactly `WORD_LENGTH` bytes, all
/// lowercase ASCII letters.
pub fn check_word(w: &Vec<u8>) -> (r: bool)
    ensures
        r == is_word(w@),
{
    if w.len() != crate::WORD_LENGTH {
        return false;
    }
    let mut i: usize = 0;
    while i < w.len()
        invariant
            i <= w@.len(),
            w@.len() == crate::WORD_LENGTH,
            forall|k: int| 0 <= k < i ==> crate::score::is_letter(#[trigger] w@[k]),
        decreases w@.len() - i,
    {
        let b = w[i];
        if b < crate::ASCII_A || b > crate::ASCII_Z {
            return false;
        }
        i += 1;
    }
    true
}

/// A fresh copy of one word.
pub fn clone_word(w: &Vec<u8>) -> (r: Vec<u8>)
    ensures
        r@ == w@,
{
    let mut r: Vec<u8> = Vec::new();
    let mut i: usize = 0;
    while i < w.len()
        invariant
            i <= w@.len(),
            r@ == w@.take(i as int),
        decreases w@.len() - i,
    {
        r.push(w[i]);
        proof {
            assert(r@ =~= w@.take(i as int + 1));
        }
        i += 1;
    }
    proof {
        assert(w@.take(w@.len() as int) =~= w@);
    }
    r
}

/// Keep only the lines that are playable words.
pub fn keep_words(lines: &Vec<Vec<u8>>) -> (words: Vec<Vec<u8>>)
    ensures
        views_of(words@) == filter_words(views_of(lines@)),
{
    let mut words: Vec<Vec<u8>> = Vec::new();
    let mut i: usize = 0;
    proof {
        reveal(Seq::filter);
        assert(views_of(lines@).take(0) =~= Seq::<Seq<u8>>::empty());
        assert(views_of(words@) =~= Seq::<Seq<u8>>::empty());
    }
    while i < lines.len()
        invariant
            i <= lines@.len(),
            views_of(words@) == filter_words(views_of(lines@).take(i as int)),
        decreases lines@.len() - i,
    {
        let ghost old_words = words@;
        let ghost prefix = views_of(lines@).take(i as int);
        if check_word(&lines[i]) {
            let w = clone_word(&lines[i]);
            words.push(w);
            proof {
                assert(views_of(words@) =~= views_of(old_words).push(lines@[i as int]@));
            }
        }
        proof {
            reveal(Seq::filter);
            let next = views_of(lines@).take(i as int + 1);
            assert(next.drop_last() =~= prefix);
            assert(next.last() == lines@[i as int]@);
        }
        i += 1;
    }
    proof {
        assert(views_of(lines@).take(lines@.len() as int) =~= views_of(lines@));
    }
    words
}

/// Lexicographic order on byte sequences: the shorter of two sequences that
/// agree on their common prefix comes first.
pub open spec fn lex_leq(a: Seq<u8>, b: Seq<u8>) -> bool
    decreases a.len(),
{
    if a.len() == 0 {
        true
    } else if b.len() == 0 {
        false
    } else if a[0] < b[0] {
        true
    } else if b[0] < a[0] {
        false
    } else {
        lex_leq(a.drop_first(), b.drop_first())
    }
}

/// The lexicographic order as a relation value, for the sorting predicates.
pub open spec fn lex_leq_fn() -> spec_fn(Seq<u8>, Seq<u8>) -> bool {
    |a: Seq<u8>, b: Seq<u8>| lex_leq(a, b)
}

pub proof fn lemma_lex_reflexive(a: Seq<u8>)
    ensures
        lex_leq(a, a),
    decreases a.len(),
{
    if a.len() > 0 {
        lemma_lex_reflexive(a.drop_first());
    }
}

pub proof fn lemma_lex_total(a: Seq<u8>, b: Seq<u8>)
    ensures
        lex_leq(a, b) || lex_leq(b, a),
    decreases a.len(),
{
    if a.len() > 0 && b.len() > 0 && a[0] == b[0] {
        lemma_lex_total(a.drop_first(), b.drop_first());
    }
}

pub proof fn lemma_lex_antisymmetric(a: Seq<u8>, b: Seq<u8>)
    requires
        lex_leq(a, b),
        lex_leq(b, a),
    ensures
        a == b,
    decreases a.len(),
{
    if a.len() > 0 && b.len() > 0 {
        lemma_lex_antisymmetric(a.drop_first(), b.drop_first());
        assert(a =~= seq![a[0]] + a.drop_first());
        assert(b =~= seq![b[0]] + b.drop_first());
    }
}

pub proof fn lemma_lex_transitive(a: Seq<u8>, b: Seq<u8>, c: Seq<u8>)
    requires
        lex_leq(a, b),
        lex_leq(b, c),
    ensures
        lex_leq(a, c),
    decreases a.len(),
{
    if a.len() > 0 && b.len() > 0 && c.len() > 0 && a[0] == b[0] && b[0] == c[0] {
        lemma_lex_transitive(a.drop_first(), b.drop_first(), c.drop_first());
    }
}

/// The lexicographic order is a total order, so sorting by it has a single
/// possible result.
pub proof fn lemma_lex_total_ordering()
    ensures
        total_ordering(lex_leq_fn()),
{
    let leq = lex_leq_fn();
    assert forall|x: Seq<u8>| #[trigger] leq(x, x) by {
        lemma_lex_reflexive(x);
    }
    assert forall|x: Seq<u8>, y: Seq<u8>| #[trigger] leq(x, y) && #[trigger] leq(y, x) implies x
        == y by {
        lemma_lex_antisymmetric(x, y);
    }
    assert forall|x: Seq<u8>, y: Seq<u8>, z: Seq<u8>|
        #[trigger] leq(x, y) && #[trigger] leq(y, z) implies leq(x, z) by {
        lemma_lex_transitive(x, y, z);
    }
    assert forall|x: Seq<u8>, y: Seq<u8>| #[trigger] leq(x, y) || #[trigger] leq(y, x) by {
        lemma_lex_total(x, y);
    }
}

/// Compare the suffixes of `a` and `b` that start at `i`.
fn lex_le_at(a: &Vec<u8>, b: &Vec<u8>, i: usize) -> (r: bool)
    requires
        i <= a@.len(),
        i <= b@.len(),
    ensures
        r == lex_leq(a@.skip(i as int), b@.skip(i as int)),
    decreases a@.len() - i,
{
    let ghost sa = a@.skip(i as int);
    let ghost sb = b@.skip(i as int);
    if i == a.len() {
        proof {
            assert(sa.len() == 0);
        }
        true
    } else if i == b.len() {
        proof {
            assert(sb.len() == 0);
        }
        false
    } else {
        proof {
            assert(sa[0] == a@[i as int]);
            assert(sb[0] == b@[i as int]);
        }
        if a[i] < b[i] {
            true
        } else if b[i] < a[i] {
            false
        } else {
            let r = lex_le_at(a, b, i + 1);
            proof {
                assert(sa.drop_first() =~= a@.skip(i as int + 1));
                assert(sb.drop_first() =~= b@.skip(i as int + 1));
            }
            r
        }
    }
}

/// Whether `a` comes before `b` (or equals it) in lexicographic order.
pub fn lex_le(a: &Vec<u8>, b: &Vec<u8>) -> (r: bool)
    ensures
        r == lex_leq(a@, b@),
{
    let r = lex_le_at(a, b, 0);
    proof {
        assert(a@.skip(0) =~= a@);
        assert(b@.skip(0) =~= b@);
    }
    r
}

/// Inserting an element anywhere in a sequence adds exactly that element to
/// its multiset of values.
proof fn lemma_insert_to_multiset(s: Seq<Seq<u8>>, p: int, a: Seq<u8>)
    requires
        0 <= p <= s.len(),
    ensures
        s.insert(p, a).to_multiset() == s.to_multiset().insert(a),
{
    broadcast use vstd::multiset::group_multiset_axioms;
    broadcast use vstd::seq_lib::group_to_multiset_ensures;

    let t = s.insert(p, a);
    s.insert_ensures(p, a);
    assert(t.remove(p) =~= s) by {
        t.remove_ensures(p);
    }
    to_multiset_remove(t, p);
    assert(t[p] == a);
    assert(t.contains(a));
    assert(t.to_multiset().count(a) > 0);
    assert(t.to_multiset() =~= s.to_multiset().insert(a));
}

/// Insert one word into an already sorted list, keeping it sorted.
fn insert_sorted(out: &mut Vec<Vec<u8>>, w: Vec<u8>)
    requires
        sorted_by(views_of(old(out)@), lex_leq_fn()),
    ensures
        sorted_by(views_of(final(out)@), lex_leq_fn()),
        views_of(final(out)@).to_multiset() == views_of(old(out)@).to_multiset().insert(w@),
{
    proof {
        lemma_lex_total_ordering();
    }
    let ghost leq = lex_leq_fn();
    let ghost dv = views_of(out@);
    let mut p: usize = 0;
    while p < out.len() && lex_le(&out[p], &w)
        invariant
            p <= out@.len(),
            dv == views_of(out@),
            forall|k: int| 0 <= k < p ==> lex_leq(#[trigger] dv[k], w@),
        decreases out@.len() - p,
    {
        p += 1;
    }
    proof {
        // every word at or past the insertion point comes after `w`
        if p < out@.len() {
            lemma_lex_total(dv[p as int], w@);
        }
        assert forall|l: int| p <= l < dv.len() implies lex_leq(w@, #[trigger] dv[l]) by {
            assert(leq(dv[p as int], dv[l]) || p == l);
            lemma_lex_transitive(w@, dv[p as int], dv[l]);
        }
    }
    let ghost wv = w@;
    out.insert(p, w);
    proof {
        assert(views_of(out@) =~= dv.insert(p as int, wv)) by {
            out@.map_values(|x: Vec<u8>| x@);
            dv.insert_ensures(p as int, wv);
        }
        lemma_insert_to_multiset(dv, p as int, wv);
        let nv = views_of(out@);
        assert forall|i: int, j: int| 0 <= i < j < nv.len() implies #[trigger] leq(
            nv[i],
            nv[j],
        ) by {
            dv.insert_ensures(p as int, wv);
            if i == p {
                assert(lex_leq(wv, nv[j]));
            } else if j == p {
                assert(lex_leq(nv[i], wv));
            } else if i < p && j > p {
                assert(nv[i] == dv[i] && nv[j] == dv[j - 1]);
                assert(lex_leq(dv[i], wv));
                assert(lex_leq(wv, dv[j - 1]));
                lemma_lex_transitive(dv[i], wv, dv[j - 1]);
            }
        }
    }
}

/// Sort a list of words lexicographically.
pub fn sort_words(words: &Vec<Vec<u8>>) -> (out: Vec<Vec<u8>>)
    ensures
        sorted_by(views_of(out@), lex_leq_fn()),
        views_of(out@).to_multiset() == views_of(words@).to_multiset(),
{
    broadcast use vstd::seq_lib::group_to_multiset_ensures;

    let mut out: Vec<Vec<u8>> = Vec::new();
    let mut i: usize = 0;
    proof {
        assert(views_of(out@) =~= Seq::<Seq<u8>>::empty());
        assert(views_of(words@).take(0) =~= Seq::<Seq<u8>>::empty());
        assert(Seq::<Seq<u8>>::empty().to_multiset() =~= Multiset::<Seq<u8>>::empty());
    }
    while i < words.len()
        invariant
            i <= words@.len(),
            sorted_by(views_of(out@), lex_leq_fn()),
            views_of(out@).to_multiset() == views_of(words@).take(i as int).to_multiset(),
        decreases words@.len() - i,
    {
        let w = clone_word(&words[i]);
        insert_sorted(&mut out, w);
        proof {
            let prefix = views_of(words@).take(i as int);
            let next = views_of(words@).take(i as int + 1);
            assert(next =~= prefix.push(words@[i as int]@));
            vstd::seq_lib::to_multiset_build(prefix, words@[i as int]@);
        }
        i += 1;
    }
    proof {
        assert(views_of(words@).take(words@.len() as int) =~= views_of(words@));
    }
    out
}

/// Two equal words stand side by side.
pub open spec fn has_adjacent_dup(ws: Seq<Seq<u8>>) -> bool {
    exists|i: int| 0 <= i && i + 1 < ws.len() && #[trigger] ws[i] == ws[i + 1]
}

/// Whether the word list holds the same word twice in a row.
pub fn has_adjacent_duplicate(words: &Vec<Vec<u8>>) -> (r: bool)
    ensures
        r == has_adjacent_dup(views_of(words@)),
{
    let ghost dv = views_of(words@);
    if words.len() == 0 {
        return false;
    }
    let mut i: usize = 0;
    while i < words.len() - 1
        invariant
            i < words@.len(),
            dv == views_of(words@),
            forall|k: int| 0 <= k && k + 1 <= i ==> #[trigger] dv[k] != dv[k + 1],
        decreases words@.len() - i,
    {
        if words[i] == words[i + 1] {
            proof {
                assert(dv[i as int] =~= dv[i as int + 1]);
            }
            return true;
        }
        proof {
            if dv[i as int] == dv[i as int + 1] {
                assert(words@[i as int]@ =~= words@[i as int + 1]@);
            }
        }
        i += 1;
    }
    false
}

/// In a sorted list, a repeated word always shows up as two equal neighbours.
pub proof fn lemma_sorted_dup_adjacent(ws: Seq<Seq<u8>>)
    requires
        sorted_by(ws, lex_leq_fn()),
    ensures
        has_adjacent_dup(ws) <==> !ws.no_duplicates(),
{
    let leq = lex_leq_fn();
    if has_adjacent_dup(ws) {
        let i = choose|i: int| 0 <= i && i + 1 < ws.len() && #[trigger] ws[i] == ws[i + 1];
        assert(ws[i] == ws[i + 1] && i != i + 1);
        assert(!ws.no_duplicates());
    }
    if !ws.no_duplicates() {
        let (i, j) = choose|i: int, j: int|
            0 <= i < ws.len() && 0 <= j < ws.len() && i != j && ws[i] == ws[j];
        let lo = if i < j {
            i
        } else {
            j
        };
        let hi = if i < j {
            j
        } else {
            i
        };
        assert(0 <= lo < hi < ws.len() && ws[lo] == ws[hi]);
        assert(leq(ws[lo], ws[lo + 1]));
        if lo + 1 < hi {
            assert(leq(ws[lo + 1], ws[hi]));
            lemma_lex_antisymmetric(ws[lo + 1], ws[lo]);
        }
        assert(ws[lo] == ws[lo + 1]);
        assert(has_adjacent_dup(ws));
    }
}

/// Two word lists with the same multiset of entries either both repeat a
/// word or neither does.
proof fn lemma_no_dup_transfer(a: Seq<Seq<u8>>, b: Seq<Seq<u8>>)
    requires
        a.to_multiset() == b.to_multiset(),
        a.no_duplicates(),
    ensures
        b.no_duplicates(),
{
    a.lemma_multiset_has_no_duplicates();
    b.lemma_multiset_has_no_duplicates_conv();
}

/// The one fatal flaw a word list can have: the same word appears twice.
#[derive(Clone, Copy, PartialEq, Eq, Structural, Debug)]
pub enum DictError {
    DuplicateWord,
}

/// What a loaded dictionary is: the playable words of the source text,
/// sorted lexicographically, each exactly once.
pub open spec fn dictionary_ok(dv: Seq<Seq<u8>>, text: Seq<u8>) -> bool {
    &&& sorted_by(dv, lex_leq_fn())
    &&& dv.no_duplicates()
    &&& dv.to_multiset() == valid_words_of(text).to_multiset()
}

/// Load a dictionary from raw newline-delimited text.
///
/// Lines that are not playable words are dropped; the remaining words are
/// sorted. Loading fails exactly when some playable word occurs on two
/// lines: the game's reference data must be a set.
pub fn load_dictionary(text: &Vec<u8>) -> (r: Result<Vec<Vec<u8>>, DictError>)
    ensures
        match r {
            Ok(dict) => {
                &&& dictionary_ok(views_of(dict@), text@)
                &&& valid_words_of(text@).no_duplicates()
                &&& forall|i: int| 0 <= i < dict@.len() ==> is_word(#[trigger] dict@[i]@)
            },
            Err(e) => e == DictError::DuplicateWord && !valid_words_of(text@).no_duplicates(),
        },
{
    broadcast use vstd::seq_lib::group_to_multiset_ensures;

    let lines = split_lines(text);
    let words = keep_words(&lines);
    let sorted = sort_words(&words);
    let ghost sv = views_of(sorted@);
    let ghost vw = valid_words_of(text@);
    proof {
        lemma_lex_total_ordering();
        lemma_sorted_dup_adjacent(sv);
    }
    if has_adjacent_duplicate(&sorted) {
        proof {
            if vw.no_duplicates() {
                lemma_no_dup_transfer(vw, sv);
            }
        }
        Err(DictError::DuplicateWord)
    } else {
        proof {
            lemma_no_dup_transfer(sv, vw);
            assert forall|i: int| 0 <= i < sorted@.len() implies is_word(
                #[trigger] sorted@[i]@,
            ) by {
                assert(sv.contains(sv[i]));
                assert(vw.to_multiset().count(sv[i]) > 0);
                assert(vw.contains(sv[i]));
                let j = choose|j: int| 0 <= j < vw.len() && vw[j] == sv[i];
                lines_of(text@).lemma_filter_pred(|w: Seq<u8>| is_word(w), j);
            }
        }
        Ok(sorted)
    }
}

/// `p` is an initial run of `w`.
pub open spec fn has_prefix(w: Seq<u8>, p: Seq<u8>) -> bool {
    p.len() <= w.len() && w.take(p.len() as int) == p
}

/// The dictionary entries that start with `p`, in dictionary order.
pub open spec fn prefix_matches(dv: Seq<Seq<u8>>, p: Seq<u8>) -> Seq<Seq<u8>> {
    dv.filter(|w: Seq<u8>| has_prefix(w, p))
}

/// Whether the word `w` starts with the typed prefix `p`.
pub fn word_has_prefix(w: &Vec<u8>, p: &Vec<u8>) -> (r: bool)
    ensures
        r == has_prefix(w@, p@),
{
    if p.len() > w.len() {
        return false;
    }
    let mut i: usize = 0;
    while i < p.len()
        invariant
            i <= p@.len(),
            p@.len() <= w@.len(),
            forall|k: int| 0 <= k < i ==> w@[k] == p@[k],
        decreases p@.len() - i,
    {
        if w[i] != p[i] {
            proof {
                if has_prefix(w@, p@) {
                    assert(w@.take(p@.len() as int)[i as int] == p@[i as int]);
                }
            }
            return false;
        }
        i += 1;
    }
    proof {
        assert(w@.take(p@.len() as int) =~= p@);
    }
    true
}

/// The first dictionary words that begin with the typed prefix: all of them
/// when they number at most `limit`, else the first `limit` in dictionary
/// order. Shown beside the board as suggestions while the player types.
pub fn matching_prefix_words(dict: &Vec<Vec<u8>>, prefix: &Vec<u8>, limit: usize) -> (out: Vec<
    Vec<u8>,
>)
    ensures
        ({
            let m = prefix_matches(views_of(dict@), prefix@);
            views_of(out@) == if m.len() <= limit {
                m
            } else {
                m.take(limit as int)
            }
        }),
{
    let ghost dv = views_of(dict@);
    let ghost pred = |w: Seq<u8>| has_prefix(w, prefix@);
    let mut out: Vec<Vec<u8>> = Vec::new();
    let mut i: usize = 0;
    proof {
        reveal(Seq::filter);
        assert(dv.take(0) =~= Seq::<Seq<u8>>::empty());
        assert(views_of(out@) =~= Seq::<Seq<u8>>::empty());
    }
    while i < dict.len() && out.len() < limit
        invariant
            i <= dict@.len(),
            dv == views_of(dict@),
            out@.len() <= limit,
            views_of(out@) == prefix_matches(dv.take(i as int), prefix@),
        decreases dict@.len() - i,
    {
        let ghost old_out = out@;
        if word_has_prefix(&dict[i], prefix) {
            let w = clone_word(&dict[i]);
            out.push(w);
            proof {
                assert(views_of(out@) =~= views_of(old_out).push(dict@[i as int]@));
            }
        }
        proof {
            reveal(Seq::filter);
            let next = dv.take(i as int + 1);
            assert(next.drop_last() =~= dv.take(i as int));
            assert(next.last() == dict@[i as int]@);
        }
        i += 1;
    }
    proof {
        let m = prefix_matches(dv, prefix@);
        let got = views_of(out@);
        assert(dv =~= dv.take(i as int) + dv.skip(i as int));
        Seq::filter_distributes_over_add(dv.take(i as int), dv.skip(i as int), pred);
        assert(m == got + prefix_matches(dv.skip(i as int), prefix@));
        if i == dict@.len() {
            assert(dv.skip(i as int) =~= Seq::<Seq<u8>>::empty());
            assert(prefix_matches(Seq::<Seq<u8>>::empty(), prefix@)
                =~= Seq::<Seq<u8>>::empty()) by {
                reveal(Seq::filter);
            }
            assert(m =~= got);
        } else {
            assert(got.len() == limit);
            assert(m.take(limit as int) =~= got);
            if m.len() <= limit {
                assert(m =~= got);
            }
        }
    }
    out
}

/// The letters of all the words, in order, one word after the next.
pub open spec fn flat_letters(ws: Seq<Seq<u8>>) -> Seq<u8>
    decreases ws.len(),
{
    if ws.len() == 0 {
        Seq::empty()
    } else {
        flat_letters(ws.drop_last()) + ws.last()
    }
}

/// `s` with every repeated value removed, keeping first occurrences in the
/// order they appear.
pub open spec fn dedup_first(s: Seq<u8>) -> Seq<u8>
    decreases s.len(),
{
    if s.len() == 0 {
        Seq::empty()
    } else {
        let p = dedup_first(s.drop_last());
        if p.contains(s.last()) {
            p
        } else {
            p.push(s.last())
        }
    }
}

/// The alphabet the dictionary uses: every distinct letter occurring in some
/// word, in order of first appearance.
pub fn alphabet_of(dict: &Vec<Vec<u8>>) -> (out: Vec<u8>)
    ensures
        out@ == dedup_first(flat_letters(views_of(dict@))),
{
    let ghost dv = views_of(dict@);
    let mut out: Vec<u8> = Vec::new();
    let mut i: usize = 0;
    proof {
        assert(dv.take(0) =~= Seq::<Seq<u8>>::empty());
        assert(out@ =~= dedup_first(flat_letters(dv.take(0))));
    }
    while i < dict.len()
        invariant
            i <= dict@.len(),
            dv == views_of(dict@),
            out@ == dedup_first(flat_letters(dv.take(i as int))),
        decreases dict@.len() - i,
    {
        let word = &dict[i];
        let ghost sofar = flat_letters(dv.take(i as int));
        let mut j: usize = 0;
        proof {
            assert(sofar + word@.take(0) =~= sofar);
        }
        while j < word.len()
            invariant
                j <= word@.len(),
                word@ == dict@[i as int]@,
                i < dict@.len(),
                dv == views_of(dict@),
                sofar == flat_letters(dv.take(i as int)),
                out@ == dedup_first(sofar + word@.take(j as int)),
            decreases word@.len() - j,
        {
            let b = word[j];
            let ghost s = sofar + word@.take(j as int);
            proof {
                assert((sofar + word@.take(j as int + 1)).drop_last() =~= s);
                assert((sofar + word@.take(j as int + 1)).last() == b);
                assert(sofar + word@.take(j as int + 1) =~= s.push(b));
            }
            if !crate::score::contains_byte(&out, b) {
                out.push(b);
            }
            proof {
                assert(out@.contains(b) == crate::score::contains_letter(out@, b));
            }
            j += 1;
        }
        proof {
            assert(sofar + word@.take(word@.len() as int) =~= sofar + word@);
            let next = dv.take(i as int + 1);
            assert(next.drop_last() =~= dv.take(i as int));
            assert(next.last() == dict@[i as int]@);
            assert(flat_letters(next) == sofar + word@);
        }
        i += 1;
    }
    proof {
        assert(dv.take(dict@.len() as int) =~= dv);
    }
    out
}

/// Loading is deterministic: any two dictionaries loaded from the same text
/// are the same list, word for word. Loading twice changes nothing.
pub proof fn lemma_load_deterministic(dv1: Seq<Seq<u8>>, dv2: Seq<Seq<u8>>, text: Seq<u8>)
    requires
        dictionary_ok(dv1, text),
        dictionary_ok(dv2, text),
    ensures
        dv1 == dv2,
{
    lemma_lex_total_ordering();
    vstd::seq_lib::lemma_sorted_unique(dv1, dv2, lex_leq_fn());
    assert(dv1 =~= dv2);
}

} // verus!
