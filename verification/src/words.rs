//! Words as sequences of characters, and the queries a lexicon answers.

use vstd::prelude::*;

verus! {

/// A word, seen as the sequence of its characters.
pub type Word = Seq<char>;

/// `w` has exactly `len` characters and begins with `prefix`.
pub open spec fn fits(w: Word, prefix: Word, len: nat) -> bool {
    w.len() == len && prefix.is_prefix_of(w)
}

/// The words of `words` that have `len` characters and begin with `prefix`,
/// in the order in which they stand in `words`.
pub open spec fn matching(words: Seq<Word>, prefix: Word, len: nat) -> Seq<Word> {
    words.filter(|w: Word| fits(w, prefix, len))
}

/// The number of characters of `w` is one of `lengths`.
pub open spec fn has_length_in(w: Word, lengths: Seq<usize>) -> bool {
    exists|k: int| 0 <= k < lengths.len() && #[trigger] lengths[k] as nat == w.len()
}

/// The words of `words` whose number of characters is one of `lengths`,
/// in the order in which they stand in `words`.
pub open spec fn retained(words: Seq<Word>, lengths: Seq<usize>) -> Seq<Word> {
    words.filter(|w: Word| has_length_in(w, lengths))
}

/// The words of `words` that begin with `prefix`, whatever their length.
pub open spec fn beginning_with(words: Seq<Word>, prefix: Word) -> Seq<Word> {
    words.filter(|w: Word| prefix.is_prefix_of(w))
}

/// The words of `words` that have `len` characters.
pub open spec fn of_length(words: Seq<Word>, len: nat) -> Seq<Word> {
    words.filter(|w: Word| w.len() == len)
}

/// Adding a word at the end of the dictionary adds it at the end of the
/// answer when it fits, and leaves the answer alone when it does not.
pub proof fn lemma_matching_push(words: Seq<Word>, w: Word, prefix: Word, len: nat)
    ensures
        matching(words.push(w), prefix, len) == if fits(w, prefix, len) {
            matching(words, prefix, len).push(w)
        } else {
            matching(words, prefix, len)
        },
{
    words.lemma_filter_push(w, |w: Word| fits(w, prefix, len));
}

/// Giving one more word retains it when its length is one of those asked
/// for, and changes nothing when it is not.
pub proof fn lemma_retained_push(words: Seq<Word>, w: Word, lengths: Seq<usize>)
    ensures
        retained(words.push(w), lengths) == if has_length_in(w, lengths) {
            retained(words, lengths).push(w)
        } else {
            retained(words, lengths)
        },
{
    words.lemma_filter_push(w, |w: Word| has_length_in(w, lengths));
}

/// One more word joins those beginning with a prefix when it begins with
/// it, and changes nothing when it does not.
pub proof fn lemma_beginning_with_push(words: Seq<Word>, w: Word, prefix: Word)
    ensures
        beginning_with(words.push(w), prefix) == if prefix.is_prefix_of(w) {
            beginning_with(words, prefix).push(w)
        } else {
            beginning_with(words, prefix)
        },
{
    words.lemma_filter_push(w, |w: Word| prefix.is_prefix_of(w));
}

/// One more word joins those of a length when it has that length, and
/// changes nothing when it has not.
pub proof fn lemma_of_length_push(words: Seq<Word>, w: Word, len: nat)
    ensures
        of_length(words.push(w), len) == if w.len() == len {
            of_length(words, len).push(w)
        } else {
            of_length(words, len)
        },
{
    words.lemma_filter_push(w, |w: Word| w.len() == len);
}

/// A query selects by prefix and by length, in either order.
pub proof fn lemma_matching_split(words: Seq<Word>, prefix: Word, len: nat)
    ensures
        matching(words, prefix, len) == of_length(beginning_with(words, prefix), len),
    decreases words.len(),
{
    if words.len() == 0 {
        words.lemma_filter_len(|w: Word| fits(w, prefix, len));
        words.lemma_filter_len(|w: Word| prefix.is_prefix_of(w));
        let none = beginning_with(words, prefix);
        none.lemma_filter_len(|w: Word| w.len() == len);
        assert(matching(words, prefix, len) =~= of_length(none, len));
    } else {
        let front = words.drop_last();
        let w = words.last();
        assert(words =~= front.push(w));
        lemma_matching_split(front, prefix, len);
        lemma_matching_push(front, w, prefix, len);
        lemma_beginning_with_push(front, w, prefix);
        if prefix.is_prefix_of(w) {
            lemma_of_length_push(beginning_with(front, prefix), w, len);
        }
    }
}

/// Every word of an answer stands in the dictionary and fits the query, and
/// every word of the dictionary that fits the query stands in the answer.
pub proof fn lemma_matching_contains(words: Seq<Word>, prefix: Word, len: nat, w: Word)
    ensures
        matching(words, prefix, len).contains(w) <==> words.contains(w) && fits(w, prefix, len),
{
    let pred = |w: Word| fits(w, prefix, len);
    let found = words.filter(pred);
    if found.contains(w) {
        let i = choose|i: int| 0 <= i < found.len() && found[i] == w;
        words.lemma_filter_pred(pred, i);
        words.lemma_filter_contains_rev(pred, w);
    }
    if words.contains(w) && fits(w, prefix, len) {
        let i = choose|i: int| 0 <= i < words.len() && words[i] == w;
        words.lemma_filter_contains(pred, i);
    }
}

/// Each word of an answer fits the query and stands in the dictionary.
pub proof fn lemma_matching_fits(words: Seq<Word>, prefix: Word, len: nat, i: int)
    requires
        0 <= i < matching(words, prefix, len).len(),
    ensures
        fits(matching(words, prefix, len)[i], prefix, len),
        words.contains(matching(words, prefix, len)[i]),
{
    let found = matching(words, prefix, len);
    assert(found.contains(found[i]));
    lemma_matching_contains(words, prefix, len, found[i]);
}

/// An answer is never longer than the dictionary.
pub proof fn lemma_matching_len(words: Seq<Word>, prefix: Word, len: nat)
    ensures
        matching(words, prefix, len).len() <= words.len(),
{
    words.lemma_filter_len(|w: Word| fits(w, prefix, len));
}

/// The number of characters of `s`.
pub fn char_len(s: &str) -> (n: usize)
    ensures
        n == s@.len(),
{
    s.unicode_len()
}

/// The character of `word` at position `i`, as a string of its own.
pub fn char_at(word: &str, i: usize) -> (piece: &str)
    requires
        i < word@.len(),
    ensures
        piece@ == seq![word@[i as int]],
{
    let n = word.unicode_len();
    let piece = word.substring_char(i, i + 1);
    assert(piece@ =~= seq![word@[i as int]]);
    piece
}

/// Whether `word` begins with `prefix`, character by character.
pub fn starts_with(word: &str, prefix: &str) -> (b: bool)
    ensures
        b == prefix@.is_prefix_of(word@),
{
    let n = prefix.unicode_len();
    if n > word.unicode_len() {
        return false;
    }
    let mut i: usize = 0;
    while i < n
        invariant
            i <= n,
            n == prefix@.len(),
            n <= word@.len(),
            forall|j: int| 0 <= j < i ==> prefix@[j] == word@[j],
        decreases n - i,
    {
        if prefix.get_char(i) != word.get_char(i) {
            return false;
        }
        i += 1;
    }
    assert(prefix@ =~= word@.subrange(0, n as int));
    true
}

/// Whether `n` is one of `lengths`.
pub fn contains_length(lengths: &Vec<usize>, n: usize) -> (b: bool)
    ensures
        b == exists|k: int| 0 <= k < lengths@.len() && #[trigger] lengths@[k] == n,
{
    let mut k: usize = 0;
    while k < lengths.len()
        invariant
            k <= lengths.len(),
            forall|j: int| 0 <= j < k ==> #[trigger] lengths@[j] != n,
        decreases lengths.len() - k,
    {
        if lengths[k] == n {
            return true;
        }
        k += 1;
    }
    false
}

} // verus!
