//! The prefix oracle: which words of the dictionary have a given length and
//! begin with a given prefix.

use crate::words::{
    beginning_with, char_len, contains_length, lemma_beginning_with_push, lemma_matching_push,
    lemma_matching_split, lemma_of_length_push, lemma_retained_push, matching, of_length,
    retained, starts_with, Word,
};
use vstd::hash_map::StringHashMap;
use vstd::prelude::*;

verus! {

/// A dictionary that answers prefix queries.
///
/// The answer to a query is fixed by the retained words alone, so two
/// lexicons that retain the same words answer every query alike.
pub trait Lexicon: Sized {
    /// The words retained, in the order in which they were given.
    spec fn words(&self) -> Seq<Word>;

    /// Retains those of `words` whose number of characters is one of
    /// `lengths`.
    fn initialize(words: Vec<String>, lengths: Vec<usize>) -> (lexicon: Self)
        ensures
            lexicon.words() == retained(words.deep_view(), lengths@),
    ;

    /// Every retained word of exactly `word_len` characters that begins with
    /// `prefix`, in the order in which the words were given.
    fn words_with_prefix(&self, prefix: &str, word_len: usize) -> (found: Vec<String>)
        ensures
            found.deep_view() == matching(self.words(), prefix@, word_len as nat),
    ;
}

/// A lexicon that keeps the retained words in a list and scans it on every
/// query.
#[derive(Debug, Clone, PartialEq, Eq)]
pub struct VecLexicon {
    words: Vec<String>,
}

/// The words of `words` in a row, each but the first after a comma and a
/// blank.
pub open spec fn listed(words: Seq<Word>) -> Seq<char>
    decreases words.len(),
{
    if words.len() == 0 {
        Seq::empty()
    } else if words.len() == 1 {
        words[0]
    } else {
        listed(words.drop_last()) + seq![',', ' '] + words.last()
    }
}

impl VecLexicon {
    /// The retained words in a row, with a comma and a blank between
    /// neighbours.
    pub fn render(&self) -> (text: String)
        ensures
            text@ == listed(self.words()),
    {
        let mut text = String::new();
        let mut k: usize = 0;
        let ghost all = self.words.deep_view();
        assert(all.take(0) =~= Seq::<Word>::empty());
        while k < self.words.len()
            invariant
                k <= self.words.len(),
                all == self.words.deep_view(),
                text@ == listed(all.take(k as int)),
            decreases self.words.len() - k,
        {
            let ghost before = text@;
            if k > 0 {
                proof {
                    reveal_strlit(", ");
                }
                text.append(", ");
                assert(text@ =~= before + seq![',', ' ']);
            }
            text.append(self.words[k].as_str());
            proof {
                let next = all.take(k + 1);
                assert(next.drop_last() =~= all.take(k as int));
                assert(next.last() == self.words[k as int]@);
                if k == 0 {
                    assert(text@ =~= next[0]);
                }
            }
            k += 1;
        }
        assert(all.take(k as int) =~= all);
        text
    }
}

impl Lexicon for VecLexicon {
    closed spec fn words(&self) -> Seq<Word> {
        self.words.deep_view()
    }

    fn initialize(words: Vec<String>, lengths: Vec<usize>) -> (lexicon: Self) {
        let mut kept: Vec<String> = Vec::new();
        let mut k: usize = 0;
        assert(words.deep_view().take(0) =~= Seq::<Word>::empty());
        assert(kept.deep_view() =~= Seq::<Word>::empty());
        while k < words.len()
            invariant
                k <= words.len(),
                kept.deep_view() == retained(words.deep_view().take(k as int), lengths@),
            decreases words.len() - k,
        {
            let keep = contains_length(&lengths, char_len(words[k].as_str()));
            let ghost before = kept.deep_view();
            if keep {
                kept.push(words[k].clone());
            }
            proof {
                let all = words.deep_view();
                assert(all.take(k + 1) =~= all.take(k as int).push(all[k as int]));
                lemma_retained_push(all.take(k as int), all[k as int], lengths@);
                if keep {
                    assert(kept.deep_view() =~= before.push(all[k as int]));
                }
            }
            k += 1;
        }
        assert(words.deep_view().take(k as int) =~= words.deep_view());
        VecLexicon { words: kept }
    }

    fn words_with_prefix(&self, prefix: &str, word_len: usize) -> (found: Vec<String>) {
        let mut found: Vec<String> = Vec::new();
        let mut k: usize = 0;
        assert(self.words.deep_view().take(0) =~= Seq::<Word>::empty());
        assert(found.deep_view() =~= Seq::<Word>::empty());
        while k < self.words.len()
            invariant
                k <= self.words.len(),
                found.deep_view() == matching(
                    self.words.deep_view().take(k as int),
                    prefix@,
                    word_len as nat,
                ),
            decreases self.words.len() - k,
        {
            let word = &self.words[k];
            let keep = starts_with(word.as_str(), prefix) && char_len(word.as_str()) == word_len;
            let ghost before = found.deep_view();
            if keep {
                found.push(word.clone());
            }
            proof {
                let all = self.words.deep_view();
                assert(all.take(k + 1) =~= all.take(k as int).push(all[k as int]));
                lemma_matching_push(all.take(k as int), all[k as int], prefix@, word_len as nat);
                if keep {
                    assert(found.deep_view() =~= before.push(all[k as int]));
                }
            }
            k += 1;
        }
        assert(self.words.deep_view().take(k as int) =~= self.words.deep_view());
        found
    }
}

/// What the bucket of prefix `p` holds while `w` is being entered under its
/// prefixes and those shorter than `done` have been dealt with.
spec fn bucket_for(all: Seq<Word>, w: Word, done: nat, p: Word) -> Seq<Word> {
    if p.is_prefix_of(w) && p.len() < done {
        beginning_with(all, p).push(w)
    } else {
        beginning_with(all, p)
    }
}

/// Every prefix in the index leads to a bucket of its own that holds the
/// words beginning with it, and no word begins with a prefix that the index
/// lacks.
spec fn consistent(
    index: Map<Word, usize>,
    buckets: Seq<Seq<Word>>,
    all: Seq<Word>,
    w: Word,
    done: nat,
) -> bool {
    &&& forall|p: Word| #[trigger]
        index.dom().contains(p) ==> index[p] < buckets.len() && buckets[index[p] as int]
            == bucket_for(all, w, done, p)
    &&& forall|p: Word|
        !(#[trigger] index.dom().contains(p)) ==> bucket_for(all, w, done, p).len() == 0
    &&& forall|p: Word, q: Word|
        #![trigger index[p], index[q]]
        index.dom().contains(p) && index.dom().contains(q) && p != q ==> index[p] != index[q]
}

/// A lexicon that enters every retained word under each of its prefixes when
/// it is built, so that a query is one lookup.
pub struct HashMapLexicon {
    index: StringHashMap<usize>,
    buckets: Vec<Vec<String>>,
    all: Ghost<Seq<Word>>,
}

impl HashMapLexicon {
    #[verifier::type_invariant]
    spec fn inv(&self) -> bool {
        consistent(self.index@, self.buckets.deep_view(), self.all@, Seq::empty(), 0)
    }
}

/// Enters `word` under each of its prefixes, the empty one and the word
/// itself included.
fn enter(
    index: &mut StringHashMap<usize>,
    buckets: &mut Vec<Vec<String>>,
    word: &String,
    Ghost(all): Ghost<Seq<Word>>,
)
    requires
        consistent(old(index)@, old(buckets).deep_view(), all, Seq::empty(), 0),
    ensures
        consistent(final(index)@, final(buckets).deep_view(), all.push(word@), Seq::empty(), 0),
{
    let n = char_len(word.as_str());
    let mut i: usize = 0;
    let mut more = true;
    let ghost w = word@;
    while more
        invariant
            w == word@,
            n == w.len(),
            more ==> i <= n,
            consistent(index@, buckets.deep_view(), all, w, if more { i as nat } else { w.len() + 1 }),
        decreases (if more { 1 + n - i } else { 0 }),
    {
        let prefix = word.as_str().substring_char(0, i);
        let ghost key = prefix@;
        let ghost before = buckets.deep_view();
        let ghost index0 = index@;
        let ghost next: nat = if i < n { (i + 1) as nat } else { w.len() + 1 };
        proof {
            assert(key.is_prefix_of(w));
            assert forall|p: Word| p != key implies bucket_for(all, w, next, p) == bucket_for(
                all,
                w,
                i as nat,
                p,
            ) by {
                if p.is_prefix_of(w) && p.len() == i {
                    assert(p =~= key);
                }
            }
            assert(bucket_for(all, w, next, key) == bucket_for(all, w, i as nat, key).push(w));
        }
        match index.get(prefix) {
            Some(found) => {
                let b = *found;
                buckets[b].push(word.clone());
                proof {
                    let after = buckets.deep_view();
                    assert(after[b as int] =~= before[b as int].push(w));
                    assert forall|c: int| 0 <= c < before.len() && c != b implies after[c]
                        == before[c] by {
                        assert(after[c] =~= before[c]);
                    }
                    assert(after.len() == before.len());
                }
            },
            None => {
                let b = buckets.len();
                let mut bucket: Vec<String> = Vec::new();
                bucket.push(word.clone());
                buckets.push(bucket);
                index.insert(prefix.to_owned(), b);
                proof {
                    let after = buckets.deep_view();
                    assert(after[b as int] =~= Seq::<Word>::empty().push(w));
                    assert(bucket_for(all, w, i as nat, key) =~= Seq::<Word>::empty());
                    assert forall|c: int| 0 <= c < before.len() implies after[c] == before[c] by {
                        assert(after[c] =~= before[c]);
                    }
                    assert(after.len() == before.len() + 1);
                }
            },
        }
        if i < n {
            i += 1;
        } else {
            more = false;
        }
    }
    proof {
        assert forall|p: Word| bucket_for(all, w, w.len() + 1, p) == bucket_for(
            all.push(w),
            Seq::empty(),
            0,
            p,
        ) by {
            lemma_beginning_with_push(all, w, p);
        }
    }
}

impl Lexicon for HashMapLexicon {
    closed spec fn words(&self) -> Seq<Word> {
        self.all@
    }

    fn initialize(words: Vec<String>, lengths: Vec<usize>) -> (lexicon: Self) {
        let mut index: StringHashMap<usize> = StringHashMap::new();
        let mut buckets: Vec<Vec<String>> = Vec::new();
        let ghost mut all: Seq<Word> = Seq::empty();
        let mut k: usize = 0;
        proof {
            assert(words.deep_view().take(0) =~= Seq::<Word>::empty());
            assert forall|p: Word| beginning_with(all, p).len() == 0 by {
                all.lemma_filter_len(|w: Word| p.is_prefix_of(w));
            }
        }
        while k < words.len()
            invariant
                k <= words.len(),
                all == retained(words.deep_view().take(k as int), lengths@),
                consistent(index@, buckets.deep_view(), all, Seq::empty(), 0),
            decreases words.len() - k,
        {
            let keep = contains_length(&lengths, char_len(words[k].as_str()));
            proof {
                let given = words.deep_view();
                assert(given.take(k + 1) =~= given.take(k as int).push(given[k as int]));
                lemma_retained_push(given.take(k as int), given[k as int], lengths@);
            }
            if keep {
                enter(&mut index, &mut buckets, &words[k], Ghost(all));
                proof {
                    all = all.push(words[k as int]@);
                }
            }
            k += 1;
        }
        assert(words.deep_view().take(k as int) =~= words.deep_view());
        HashMapLexicon { index, buckets, all: Ghost(all) }
    }

    fn words_with_prefix(&self, prefix: &str, word_len: usize) -> (found: Vec<String>) {
        proof {
            use_type_invariant(self);
            lemma_matching_split(self.all@, prefix@, word_len as nat);
        }
        let mut found: Vec<String> = Vec::new();
        assert(found.deep_view() =~= Seq::<Word>::empty());
        match self.index.get(prefix) {
            None => {
                proof {
                    let none = beginning_with(self.all@, prefix@);
                    assert(none =~= Seq::<Word>::empty());
                    none.lemma_filter_len(|w: Word| w.len() == word_len as nat);
                    assert(of_length(none, word_len as nat) =~= Seq::<Word>::empty());
                }
            },
            Some(b) => {
                let bucket = &self.buckets[*b];
                let ghost held = bucket.deep_view();
                assert(held == beginning_with(self.all@, prefix@));
                let mut k: usize = 0;
                assert(held.take(0) =~= Seq::<Word>::empty());
                while k < bucket.len()
                    invariant
                        k <= bucket.len(),
                        held == bucket.deep_view(),
                        found.deep_view() == of_length(held.take(k as int), word_len as nat),
                    decreases bucket.len() - k,
                {
                    let keep = char_len(bucket[k].as_str()) == word_len;
                    let ghost before = found.deep_view();
                    if keep {
                        found.push(bucket[k].clone());
                    }
                    proof {
                        assert(held.take(k + 1) =~= held.take(k as int).push(held[k as int]));
                        lemma_of_length_push(held.take(k as int), held[k as int], word_len as nat);
                        if keep {
                            assert(found.deep_view() =~= before.push(held[k as int]));
                        }
                    }
                    k += 1;
                }
                assert(held.take(k as int) =~= held);
            },
        }
        found
    }
}

} // verus!
