//! The word filter: which lines of a word list are kept as words.

use vstd::prelude::*;

verus! {

/// Whether `c` has the property Uppercase of the Unicode standard.
pub uninterp spec fn uppercase(c: char) -> bool;

/// Whether `c` has the property White_Space of the Unicode standard.
pub uninterp spec fn whitespace(c: char) -> bool;

/// Whether `c` is a punctuation character of ASCII: one of
/// `! " # $ % & ' ( ) * + , - . /`, `: ; < = > ? @`, `` [ \ ] ^ _ ` `` and
/// `{ | } ~`.
pub open spec fn ascii_punctuation(c: char) -> bool {
    let n = c as u32;
    ||| 0x21 <= n <= 0x2F
    ||| 0x3A <= n <= 0x40
    ||| 0x5B <= n <= 0x60
    ||| 0x7B <= n <= 0x7E
}

/// A character that a word may hold: not upper case, no punctuation of
/// ASCII, no white space.
pub open spec fn clean_char(c: char) -> bool {
    !uppercase(c) && !ascii_punctuation(c) && !whitespace(c)
}

/// A line that is kept as a word: each of its characters is one that a
/// word may hold.
pub open spec fn clean(line: Seq<char>) -> bool {
    forall|i: int| 0 <= i < line.len() ==> clean_char(#[trigger] line[i])
}

/// The lines that are kept as words, in their order.
pub open spec fn cleaned(lines: Seq<Seq<char>>) -> Seq<Seq<char>> {
    lines.filter(|line: Seq<char>| clean(line))
}

/// Calls `char::is_uppercase` of the standard library, which tells whether
/// a character has the Unicode property Uppercase. The property is a table
/// of the Unicode standard; the contract gives the answer a name and says
/// nothing of its value.
#[verifier::external_body]
fn is_uppercase(c: char) -> (upper: bool)
    ensures
        upper == uppercase(c),
{
    c.is_uppercase()
}

/// Calls `char::is_whitespace` of the standard library, which tells whether
/// a character has the Unicode property White_Space. The property is a
/// table of the Unicode standard; the contract gives the answer a name and
/// says nothing of its value.
#[verifier::external_body]
fn is_whitespace(c: char) -> (white: bool)
    ensures
        white == whitespace(c),
{
    c.is_whitespace()
}

/// Whether `c` is a punctuation character of ASCII.
pub fn is_ascii_punctuation(c: char) -> (punctuation: bool)
    ensures
        punctuation == ascii_punctuation(c),
{
    let n = c as u32;
    (0x21 <= n && n <= 0x2F) || (0x3A <= n && n <= 0x40) || (0x5B <= n && n <= 0x60) || (0x7B
        <= n && n <= 0x7E)
}

/// Whether a character of which it is known whether it is upper case,
/// punctuation or white space may stand in a word: only if it is none of
/// the three.
pub fn keeps(upper: bool, punctuation: bool, white: bool) -> (keep: bool)
    ensures
        keep == (!upper && !punctuation && !white),
{
    !upper && !punctuation && !white
}

/// Whether `c` may stand in a word.
pub fn is_clean_char(c: char) -> (ok: bool)
    ensures
        ok == clean_char(c),
{
    keeps(is_uppercase(c), is_ascii_punctuation(c), is_whitespace(c))
}

/// Whether `line` is kept as a word.
pub fn is_clean(line: &str) -> (ok: bool)
    ensures
        ok == clean(line@),
{
    for c in it: line.chars()
        invariant
            it.seq() == line@,
            forall|j: int| 0 <= j < it.index() ==> clean_char(#[trigger] line@[j]),
    {
        if !is_clean_char(c) {
            return false;
        }
    }
    true
}

/// Keeps the lines that hold no upper-case letter, no punctuation of ASCII
/// and no white space, in their order. A line that holds any such character
/// is dropped whole.
pub fn filter_words(lines: Vec<String>) -> (kept: Vec<String>)
    ensures
        kept.deep_view() == cleaned(lines.deep_view()),
{
    let mut kept: Vec<String> = Vec::new();
    let mut k: usize = 0;
    let ghost all = lines.deep_view();
    proof {
        assert(all.take(0) =~= Seq::<Seq<char>>::empty());
        all.take(0).lemma_filter_len(|line: Seq<char>| clean(line));
        assert(kept.deep_view() =~= cleaned(all.take(0)));
    }
    while k < lines.len()
        invariant
            k <= lines.len(),
            all == lines.deep_view(),
            kept.deep_view() == cleaned(all.take(k as int)),
        decreases lines.len() - k,
    {
        let keep = is_clean(lines[k].as_str());
        let ghost before = kept.deep_view();
        if keep {
            kept.push(lines[k].clone());
        }
        proof {
            assert(all.take(k + 1) =~= all.take(k as int).push(all[k as int]));
            all.take(k as int).lemma_filter_push(all[k as int], |line: Seq<char>| clean(line));
            if keep {
                assert(kept.deep_view() =~= before.push(all[k as int]));
            }
        }
        k += 1;
    }
    assert(all.take(k as int) =~= all);
    kept
}

} // verus!
