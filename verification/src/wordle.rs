//! The candidate filter engine: a list of possible Wordle words that is
//! progressively narrowed by three kinds of letter constraints.
//!
//! The engine keeps the word list exactly as loaded (`original`) beside the
//! list surviving all filters applied so far (`current`). Every filter
//! rebuilds `current` in one step, keeps the relative order of the words,
//! and never touches `original`; a reset restores `current` to `original`.

use vstd::prelude::*;
use vstd::string::StrSliceExecFns;
use crate::seqs::subsequence_of;
use crate::seqs::lemma_subsequence_refl;
use crate::seqs::lemma_subsequence_trans;
use crate::seqs::lemma_filter_subsequence_of;
use crate::seqs::lemma_filter_congruence;

verus! {

/// Holds when `word` contains none of the characters of `letters`.
pub open spec fn free_of(word: Seq<char>, letters: Seq<char>) -> bool {
    forall|c: char| #[trigger] letters.contains(c) ==> !word.contains(c)
}

/// Position `j` of `pattern` is the wildcard `'.'`, or `word` carries
/// exactly `pattern[j]` at position `j`.
pub open spec fn correct_at(word: Seq<char>, pattern: Seq<char>, j: int) -> bool {
    pattern[j] == '.' || (j < word.len() && word[j] == pattern[j])
}

/// `word` satisfies every correct-position constraint of the five-character
/// `pattern`: at each non-wildcard position the word carries that letter.
pub open spec fn matches_correct(word: Seq<char>, pattern: Seq<char>) -> bool {
    forall|j: int| 0 <= j < 5 ==> #[trigger] correct_at(word, pattern, j)
}

/// Position `j` of `pattern` is the wildcard `'.'`, or the letter
/// `pattern[j]` occurs somewhere in `word` but not at position `j`.
pub open spec fn incorrect_at(word: Seq<char>, pattern: Seq<char>, j: int) -> bool {
    pattern[j] == '.' || (word.contains(pattern[j]) && !(j < word.len() && word[j] == pattern[j]))
}

/// `word` satisfies every misplaced-letter constraint of the five-character
/// `pattern`: each marked letter is present in the word, yet not at the
/// marked position. A literal match at the marked position is a failure.
pub open spec fn matches_incorrect(word: Seq<char>, pattern: Seq<char>) -> bool {
    forall|j: int| 0 <= j < 5 ==> #[trigger] incorrect_at(word, pattern, j)
}

/// The words of `words` that contain none of the characters of `letters`,
/// in unchanged relative order.
pub open spec fn remove_filter(words: Seq<Seq<char>>, letters: Seq<char>) -> Seq<Seq<char>> {
    words.filter(|w: Seq<char>| free_of(w, letters))
}

/// The words of `words` that satisfy every correct-position constraint of
/// `pattern`, in unchanged relative order.
pub open spec fn correct_filter(words: Seq<Seq<char>>, pattern: Seq<char>) -> Seq<Seq<char>> {
    words.filter(|w: Seq<char>| matches_correct(w, pattern))
}

/// The words of `words` that satisfy every misplaced-letter constraint of
/// `pattern`, in unchanged relative order.
pub open spec fn incorrect_filter(words: Seq<Seq<char>>, pattern: Seq<char>) -> Seq<Seq<char>> {
    words.filter(|w: Seq<char>| matches_incorrect(w, pattern))
}

/// Reported when a positional pattern does not hold exactly five
/// characters; the call that received the pattern leaves the list as it was.
#[derive(Clone, Copy, Debug, PartialEq, Eq, Structural)]
pub struct PatternLengthError;

/// The list of possible Wordle words, before and after filtering.
pub struct WordleWords {
    /// The list of words exactly as loaded; never mutated after construction.
    original_list: Vec<String>,
    /// The words surviving all filters applied so far.
    current_list: Vec<String>,
}

/// Copies a word list; the copy holds the same words in the same order.
fn clone_words(words: &Vec<String>) -> (result: Vec<String>)
    ensures
        result.deep_view() == words.deep_view(),
{
    let result = words.clone();
    proof {
        assert forall|i: int| 0 <= i < words.len() implies result[i] == words[i] by {
            assert(vstd::pervasive::cloned::<String>(words[i], result[i]));
        }
        assert(result.deep_view() =~= words.deep_view());
    }
    result
}

/// Reports whether `word` contains the character `c`.
fn word_contains_char(word: &str, c: char) -> (result: bool)
    ensures
        result == word@.contains(c),
{
    let len = word.unicode_len();
    let mut i: usize = 0;
    while i < len
        invariant
            len == word@.len(),
            i <= len,
            forall|k: int| 0 <= k < i ==> word@[k] != c,
        decreases len - i,
    {
        if word.get_char(i) == c {
            proof {
                assert(word@[i as int] == c);
            }
            return true;
        }
        i += 1;
    }
    false
}

/// Reports whether `word` contains none of the characters of `letters`.
fn word_free_of(word: &str, letters: &str) -> (result: bool)
    ensures
        result == free_of(word@, letters@),
{
    let len = letters.unicode_len();
    let mut i: usize = 0;
    while i < len
        invariant
            len == letters@.len(),
            i <= len,
            forall|k: int| 0 <= k < i ==> !word@.contains(#[trigger] letters@[k]),
        decreases len - i,
    {
        let c = letters.get_char(i);
        if word_contains_char(word, c) {
            proof {
                assert(letters@.contains(letters@[i as int]));
            }
            return false;
        }
        i += 1;
    }
    proof {
        assert forall|c: char| #[trigger] letters@.contains(c) implies !word@.contains(c) by {
            let k = choose|k: int| 0 <= k < letters@.len() && letters@[k] == c;
            assert(!word@.contains(letters@[k]));
        }
    }
    true
}

/// Reports whether `word` satisfies every correct-position constraint of
/// the five-character `pattern`.
fn word_matches_correct(word: &str, pattern: &str) -> (result: bool)
    requires
        pattern@.len() == 5,
    ensures
        result == matches_correct(word@, pattern@),
{
    let wlen = word.unicode_len();
    let mut j: usize = 0;
    while j < 5
        invariant
            pattern@.len() == 5,
            wlen == word@.len(),
            j <= 5,
            forall|k: int| 0 <= k < j ==> #[trigger] correct_at(word@, pattern@, k),
        decreases 5 - j,
    {
        let pc = pattern.get_char(j);
        if pc != '.' {
            let at_position = if j < wlen {
                word.get_char(j) == pc
            } else {
                false
            };
            if !at_position {
                proof {
                    assert(!correct_at(word@, pattern@, j as int));
                }
                return false;
            }
        }
        proof {
            assert(correct_at(word@, pattern@, j as int));
        }
        j += 1;
    }
    true
}

/// Reports whether `word` satisfies every misplaced-letter constraint of
/// the five-character `pattern`.
fn word_matches_incorrect(word: &str, pattern: &str) -> (result: bool)
    requires
        pattern@.len() == 5,
    ensures
        result == matches_incorrect(word@, pattern@),
{
    let wlen = word.unicode_len();
    let mut j: usize = 0;
    while j < 5
        invariant
            pattern@.len() == 5,
            wlen == word@.len(),
            j <= 5,
            forall|k: int| 0 <= k < j ==> #[trigger] incorrect_at(word@, pattern@, k),
        decreases 5 - j,
    {
        let pc = pattern.get_char(j);
        if pc != '.' {
            let present = word_contains_char(word, pc);
            let at_position = if j < wlen {
                word.get_char(j) == pc
            } else {
                false
            };
            if !present || at_position {
                proof {
                    assert(!incorrect_at(word@, pattern@, j as int));
                }
                return false;
            }
        }
        proof {
            assert(incorrect_at(word@, pattern@, j as int));
        }
        j += 1;
    }
    true
}

impl WordleWords {
    /// The word list exactly as loaded, one word as its characters.
    pub closed spec fn original(&self) -> Seq<Seq<char>> {
        self.original_list.deep_view()
    }

    /// The words surviving all filters applied so far.
    pub closed spec fn current(&self) -> Seq<Seq<char>> {
        self.current_list.deep_view()
    }

    /// The engine's invariant: the current list is an order-preserving
    /// subsequence of the original list.
    pub open spec fn wf(&self) -> bool {
        subsequence_of(self.current(), self.original())
    }

    /// Returns a new engine holding `initial_list`; the current list starts
    /// as a copy of it.
    pub fn new(initial_list: Vec<String>) -> (result: WordleWords)
        ensures
            result.original() == initial_list.deep_view(),
            result.current() == result.original(),
            result.wf(),
    {
        let current_list = clone_words(&initial_list);
        proof {
            lemma_subsequence_refl(initial_list.deep_view());
        }
        WordleWords { current_list, original_list: initial_list }
    }

    /// Resets the current list to exactly the original list, clearing every
    /// filter applied so far.
    pub fn reset_list(&mut self)
        ensures
            final (self).original() == old(self).original(),
            final (self).current() == final (self).original(),
            final (self).wf(),
    {
        self.current_list = clone_words(&self.original_list);
        proof {
            lemma_subsequence_refl(self.original());
        }
    }

    /// Returns the current list of possible words, in its present order.
    pub fn get_word_list(&self) -> (result: &Vec<String>)
        ensures
            result.deep_view() == self.current(),
    {
        &self.current_list
    }

    /// Retains only the words that contain none of the characters of
    /// `letters`; a word holding at least one of them is removed. The
    /// characters' order and repetition in `letters` play no role.
    pub fn remove_letters(&mut self, letters: &str)
        ensures
            final (self).original() == old(self).original(),
            final (self).current() == remove_filter(old(self).current(), letters@),
            final (self).current().len() <= old(self).current().len(),
            subsequence_of(final (self).current(), old(self).current()),
            old(self).wf() ==> final (self).wf(),
    {
        let ghost pred = |w: Seq<char>| free_of(w, letters@);
        let ghost s = self.current();
        let mut new_list: Vec<String> = Vec::new();
        let mut i: usize = 0;
        let n = self.current_list.len();
        proof {
            reveal(Seq::filter);
            assert(new_list.deep_view() =~= s.take(0).filter(pred));
        }
        while i < n
            invariant
                *self == *old(self),
                s == self.current(),
                pred == (|w: Seq<char>| free_of(w, letters@)),
                n == self.current_list.len(),
                i <= n,
                new_list.deep_view() == s.take(i as int).filter(pred),
            decreases n - i,
        {
            let word = &self.current_list[i];
            proof {
                assert(word@ == s[i as int]);
            }
            let keep = word_free_of(word.as_str(), letters);
            let ghost previous = new_list.deep_view();
            if keep {
                new_list.push(word.clone());
                proof {
                    assert(new_list.deep_view() =~= previous.push(s[i as int]));
                }
            }
            proof {
                reveal(Seq::filter);
                assert(s.take(i as int + 1).drop_last() =~= s.take(i as int));
                assert(s.take(i as int + 1).last() == s[i as int]);
                assert(new_list.deep_view() == s.take(i as int + 1).filter(pred));
            }
            i += 1;
        }
        proof {
            assert(s.take(n as int) =~= s);
        }
        self.current_list = new_list;
        proof {
            s.lemma_filter_len(pred);
            lemma_filter_subsequence_of(s, pred);
            if old(self).wf() {
                lemma_subsequence_trans(self.current(), s, self.original());
            }
        }
    }

    /// Retains only the words that carry `pattern`'s letters at the marked
    /// positions; `'.'` positions are unconstrained. A pattern that does not
    /// hold exactly five characters is reported as an error and the list is
    /// left exactly as it was.
    pub fn correct_letters(&mut self, pattern: &str) -> (result: Result<(), PatternLengthError>)
        ensures
            final (self).original() == old(self).original(),
            pattern@.len() == 5 ==> result == Ok::<(), PatternLengthError>(())
                && final (self).current() == correct_filter(old(self).current(), pattern@),
            pattern@.len() != 5 ==> result == Err::<(), PatternLengthError>(PatternLengthError)
                && *final (self) == *old(self),
            final (self).current().len() <= old(self).current().len(),
            subsequence_of(final (self).current(), old(self).current()),
            old(self).wf() ==> final (self).wf(),
    {
        if pattern.unicode_len() != 5 {
            proof {
                lemma_subsequence_refl(self.current());
            }
            return Err(PatternLengthError);
        }
        let ghost pred = |w: Seq<char>| matches_correct(w, pattern@);
        let ghost s = self.current();
        let mut new_list: Vec<String> = Vec::new();
        let mut i: usize = 0;
        let n = self.current_list.len();
        proof {
            reveal(Seq::filter);
            assert(new_list.deep_view() =~= s.take(0).filter(pred));
        }
        while i < n
            invariant
                *self == *old(self),
                s == self.current(),
                pred == (|w: Seq<char>| matches_correct(w, pattern@)),
                pattern@.len() == 5,
                n == self.current_list.len(),
                i <= n,
                new_list.deep_view() == s.take(i as int).filter(pred),
            decreases n - i,
        {
            let word = &self.current_list[i];
            proof {
                assert(word@ == s[i as int]);
            }
            let keep = word_matches_correct(word.as_str(), pattern);
            let ghost previous = new_list.deep_view();
            if keep {
                new_list.push(word.clone());
                proof {
                    assert(new_list.deep_view() =~= previous.push(s[i as int]));
                }
            }
            proof {
                reveal(Seq::filter);
                assert(s.take(i as int + 1).drop_last() =~= s.take(i as int));
                assert(s.take(i as int + 1).last() == s[i as int]);
                assert(new_list.deep_view() == s.take(i as int + 1).filter(pred));
            }
            i += 1;
        }
        proof {
            assert(s.take(n as int) =~= s);
        }
        self.current_list = new_list;
        proof {
            s.lemma_filter_len(pred);
            lemma_filter_subsequence_of(s, pred);
            if old(self).wf() {
                lemma_subsequence_trans(self.current(), s, self.original());
            }
        }
        Ok(())
    }

    /// Retains only the words in which each of `pattern`'s marked letters is
    /// present somewhere, yet not at the marked position; `'.'` positions
    /// are unconstrained. A word carrying the letter exactly at the marked
    /// position is removed, as is one not carrying it at all. A pattern that
    /// does not hold exactly five characters is reported as an error and the
    /// list is left exactly as it was.
    pub fn incorrect_letters(&mut self, pattern: &str) -> (result: Result<(), PatternLengthError>)
        ensures
            final (self).original() == old(self).original(),
            pattern@.len() == 5 ==> result == Ok::<(), PatternLengthError>(())
                && final (self).current() == incorrect_filter(old(self).current(), pattern@),
            pattern@.len() != 5 ==> result == Err::<(), PatternLengthError>(PatternLengthError)
                && *final (self) == *old(self),
            final (self).current().len() <= old(self).current().len(),
            subsequence_of(final (self).current(), old(self).current()),
            old(self).wf() ==> final (self).wf(),
    {
        if pattern.unicode_len() != 5 {
            proof {
                lemma_subsequence_refl(self.current());
            }
            return Err(PatternLengthError);
        }
        let ghost pred = |w: Seq<char>| matches_incorrect(w, pattern@);
        let ghost s = self.current();
        let mut new_list: Vec<String> = Vec::new();
        let mut i: usize = 0;
        let n = self.current_list.len();
        proof {
            reveal(Seq::filter);
            assert(new_list.deep_view() =~= s.take(0).filter(pred));
        }
        while i < n
            invariant
                *self == *old(self),
                s == self.current(),
                pred == (|w: Seq<char>| matches_incorrect(w, pattern@)),
                pattern@.len() == 5,
                n == self.current_list.len(),
                i <= n,
                new_list.deep_view() == s.take(i as int).filter(pred),
            decreases n - i,
        {
            let word = &self.current_list[i];
            proof {
                assert(word@ == s[i as int]);
            }
            let keep = word_matches_incorrect(word.as_str(), pattern);
            let ghost previous = new_list.deep_view();
            if keep {
                new_list.push(word.clone());
                proof {
                    assert(new_list.deep_view() =~= previous.push(s[i as int]));
                }
            }
            proof {
                reveal(Seq::filter);
                assert(s.take(i as int + 1).drop_last() =~= s.take(i as int));
                assert(s.take(i as int + 1).last() == s[i as int]);
                assert(new_list.deep_view() == s.take(i as int + 1).filter(pred));
            }
            i += 1;
        }
        proof {
            assert(s.take(n as int) =~= s);
        }
        self.current_list = new_list;
        proof {
            s.lemma_filter_len(pred);
            lemma_filter_subsequence_of(s, pred);
            if old(self).wf() {
                lemma_subsequence_trans(self.current(), s, self.original());
            }
        }
        Ok(())
    }
}

/// Excluding letters is a set-based operation: two letter strings that hold
/// the same set of characters remove exactly the same words from any list.
/// In particular, strings that differ only in order or in repeated letters
/// filter any list to the same result.
pub proof fn lemma_remove_letters_set_based(words: Seq<Seq<char>>, l1: Seq<char>, l2: Seq<char>)
    requires
        l1.to_set() == l2.to_set(),
    ensures
        remove_filter(words, l1) == remove_filter(words, l2),
{
    broadcast use vstd::set::group_set_axioms;

    let p = |w: Seq<char>| free_of(w, l1);
    let q = |w: Seq<char>| free_of(w, l2);
    assert forall|c: char| l1.contains(c) == l2.contains(c) by {
        assert(l1.to_set().contains(c) == l1.contains(c));
        assert(l2.to_set().contains(c) == l2.contains(c));
    }
    assert forall|i: int| 0 <= i < words.len() implies p(words[i]) == q(words[i]) by {
        let w = words[i];
        if free_of(w, l1) {
            assert forall|c: char| #[trigger] l2.contains(c) implies !w.contains(c) by {
                assert(l1.contains(c));
            }
        }
        if free_of(w, l2) {
            assert forall|c: char| #[trigger] l1.contains(c) implies !w.contains(c) by {
                assert(l2.contains(c));
            }
        }
    }
    lemma_filter_congruence(words, p, q);
}

} // verus!
