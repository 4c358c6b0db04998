use wordbox::lexicon::{HashMapLexicon, Lexicon, VecLexicon};
use wordbox::words::{char_at, char_len, contains_length, starts_with};

fn owned(words: &[&str]) -> Vec<String> {
    words.iter().map(|w| w.to_string()).collect()
}

fn sample() -> Vec<String> {
    owned(&["cat", "cot", "car", "art", "tar", "rat", "cart", "a", "", "cat"])
}

#[test]
fn scan_answers_by_prefix_and_length() {
    let lexicon = VecLexicon::initialize(sample(), vec![3, 4]);
    assert_eq!(lexicon.words_with_prefix("ca", 3), owned(&["cat", "car", "cat"]));
    assert_eq!(lexicon.words_with_prefix("ca", 4), owned(&["cart"]));
    assert_eq!(lexicon.words_with_prefix("cart", 4), owned(&["cart"]));
    assert_eq!(lexicon.words_with_prefix("t", 3), owned(&["tar"]));
}

#[test]
fn index_answers_by_prefix_and_length() {
    let lexicon = HashMapLexicon::initialize(sample(), vec![3, 4]);
    assert_eq!(lexicon.words_with_prefix("ca", 3), owned(&["cat", "car", "cat"]));
    assert_eq!(lexicon.words_with_prefix("ca", 4), owned(&["cart"]));
    assert_eq!(lexicon.words_with_prefix("cart", 4), owned(&["cart"]));
    assert_eq!(lexicon.words_with_prefix("t", 3), owned(&["tar"]));
}

#[test]
fn empty_prefix_gives_every_word_of_the_length() {
    let all_of_three = owned(&["cat", "cot", "car", "art", "tar", "rat", "cat"]);
    let scan = VecLexicon::initialize(sample(), vec![3, 4]);
    let index = HashMapLexicon::initialize(sample(), vec![3, 4]);
    assert_eq!(scan.words_with_prefix("", 3), all_of_three);
    assert_eq!(index.words_with_prefix("", 3), all_of_three);
    assert_eq!(scan.words_with_prefix("", 4), owned(&["cart"]));
    assert_eq!(index.words_with_prefix("", 4), owned(&["cart"]));
}

#[test]
fn lengths_that_were_not_asked_for_are_dropped() {
    let scan = VecLexicon::initialize(sample(), vec![3]);
    let index = HashMapLexicon::initialize(sample(), vec![3]);
    assert!(scan.words_with_prefix("", 4).is_empty());
    assert!(index.words_with_prefix("", 4).is_empty());
    assert!(scan.words_with_prefix("", 1).is_empty());
    assert!(index.words_with_prefix("", 1).is_empty());
    assert!(scan.words_with_prefix("", 0).is_empty());
    assert!(index.words_with_prefix("", 0).is_empty());
}

#[test]
fn the_empty_word_is_kept_when_length_zero_is_asked_for() {
    let scan = VecLexicon::initialize(sample(), vec![0, 1]);
    let index = HashMapLexicon::initialize(sample(), vec![0, 1]);
    assert_eq!(scan.words_with_prefix("", 0), owned(&[""]));
    assert_eq!(index.words_with_prefix("", 0), owned(&[""]));
    assert_eq!(scan.words_with_prefix("", 1), owned(&["a"]));
    assert_eq!(index.words_with_prefix("a", 1), owned(&["a"]));
}

#[test]
fn no_match_is_an_empty_answer() {
    let scan = VecLexicon::initialize(sample(), vec![3, 4]);
    let index = HashMapLexicon::initialize(sample(), vec![3, 4]);
    assert!(scan.words_with_prefix("x", 3).is_empty());
    assert!(index.words_with_prefix("x", 3).is_empty());
    assert!(scan.words_with_prefix("cab", 3).is_empty());
    assert!(index.words_with_prefix("cab", 3).is_empty());
}

#[test]
fn a_prefix_longer_than_the_length_matches_nothing() {
    let scan = VecLexicon::initialize(sample(), vec![3, 4]);
    let index = HashMapLexicon::initialize(sample(), vec![3, 4]);
    assert!(scan.words_with_prefix("cart", 3).is_empty());
    assert!(index.words_with_prefix("cart", 3).is_empty());
    assert!(scan.words_with_prefix("carts", 4).is_empty());
    assert!(index.words_with_prefix("carts", 4).is_empty());
}

#[test]
fn both_lexicons_agree_on_every_query() {
    let scan = VecLexicon::initialize(sample(), vec![1, 3, 4]);
    let index = HashMapLexicon::initialize(sample(), vec![1, 3, 4]);
    let prefixes = ["", "a", "c", "ca", "co", "car", "cart", "t", "r", "ra", "z", "cat"];
    for prefix in prefixes {
        for len in 0..6 {
            assert_eq!(
                scan.words_with_prefix(prefix, len),
                index.words_with_prefix(prefix, len),
                "prefix {:?}, length {}",
                prefix,
                len
            );
        }
    }
}

#[test]
fn asking_twice_gives_the_same_answer() {
    let scan = VecLexicon::initialize(sample(), vec![3]);
    let index = HashMapLexicon::initialize(sample(), vec![3]);
    assert_eq!(scan.words_with_prefix("c", 3), scan.words_with_prefix("c", 3));
    assert_eq!(index.words_with_prefix("c", 3), index.words_with_prefix("c", 3));
    assert_eq!(index.words_with_prefix("c", 3), owned(&["cat", "cot", "car", "cat"]));
}

#[test]
fn lengths_count_characters() {
    let words = owned(&["caf\u{e9}", "cafe", "na\u{ef}ve"]);
    let scan = VecLexicon::initialize(words.clone(), vec![4]);
    let index = HashMapLexicon::initialize(words, vec![4]);
    assert_eq!(scan.words_with_prefix("caf", 4), owned(&["caf\u{e9}", "cafe"]));
    assert_eq!(index.words_with_prefix("caf", 4), owned(&["caf\u{e9}", "cafe"]));
    assert_eq!(index.words_with_prefix("caf\u{e9}", 4), owned(&["caf\u{e9}"]));
    assert!(index.words_with_prefix("", 5).is_empty());
}

#[test]
fn an_empty_dictionary_answers_nothing() {
    let scan = VecLexicon::initialize(Vec::new(), vec![3]);
    let index = HashMapLexicon::initialize(Vec::new(), vec![3]);
    assert!(scan.words_with_prefix("", 3).is_empty());
    assert!(index.words_with_prefix("", 3).is_empty());
}

#[test]
fn the_scanning_lexicon_lists_its_words() {
    let lexicon = VecLexicon::initialize(owned(&["cat", "pear", "dog", "emu"]), vec![3]);
    assert_eq!(lexicon.render(), "cat, dog, emu");
    let one = VecLexicon::initialize(owned(&["cat"]), vec![3]);
    assert_eq!(one.render(), "cat");
    let none = VecLexicon::initialize(owned(&["cat"]), vec![4]);
    assert_eq!(none.render(), "");
}

#[test]
fn scanning_lexicons_compare_by_their_words() {
    let a = VecLexicon::initialize(owned(&["cat", "pear"]), vec![3]);
    let b = VecLexicon::initialize(owned(&["cat"]), vec![3]);
    let c = VecLexicon::initialize(owned(&["dog"]), vec![3]);
    assert_eq!(a, b);
    assert_ne!(a, c);
    assert_eq!(a.clone(), a);
}

#[test]
fn word_helpers_count_and_compare_characters() {
    assert_eq!(char_len(""), 0);
    assert_eq!(char_len("cat"), 3);
    assert_eq!(char_len("caf\u{e9}"), 4);
    assert_eq!(char_at("cat", 0), "c");
    assert_eq!(char_at("cat", 2), "t");
    assert_eq!(char_at("caf\u{e9}s", 3), "\u{e9}");
    assert!(starts_with("cat", ""));
    assert!(starts_with("cat", "ca"));
    assert!(starts_with("cat", "cat"));
    assert!(!starts_with("cat", "cats"));
    assert!(!starts_with("cat", "co"));
    assert!(!starts_with("", "c"));
    assert!(contains_length(&vec![3, 4], 4));
    assert!(!contains_length(&vec![3, 4], 5));
    assert!(!contains_length(&Vec::new(), 0));
}
