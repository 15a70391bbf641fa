//! The prefix index over the vocabulary: a trie of the words that the board's
//! letters can spell, read by descending from prefix to longer prefix.

use crate::letters::{
    admissible, first_occurrences, lemma_first_occurrences_letters, letter_present, token_values,
};
use crate::path::{lookup_key, TraversalPath};
use crate::word::{word_values, Word};
use sequence_trie::SequenceTrie;
use vstd::prelude::*;

verus! {

/// What a trie of words holds: its words, each with the value stored for it.
pub type Entries = Map<Seq<char>, bool>;

/// The entries that begin with `key`, each without that beginning.
pub open spec fn entries_under(entries: Entries, key: Seq<char>) -> Entries {
    Map::new(
        |rest: Seq<char>| entries.contains_key(key + rest),
        |rest: Seq<char>| entries[key + rest],
    )
}

/// Whether some entry begins with `key`.
pub open spec fn has_word_under(entries: Entries, key: Seq<char>) -> bool {
    exists|word: Seq<char>| #[trigger] entries.contains_key(word) && key.is_prefix_of(word)
}

/// Whether some entry is longer than the empty word.
pub open spec fn has_longer_word(entries: Entries) -> bool {
    exists|word: Seq<char>| #[trigger] entries.contains_key(word) && word.len() > 0
}

/// The words of the vocabulary that hold no character but those of the tokens.
pub open spec fn usable_words(vocabulary: Seq<Seq<char>>, tokens: Seq<Seq<char>>) -> Set<
    Seq<char>,
> {
    Set::new(|word: Seq<char>| vocabulary.contains(word) && admissible(word, tokens))
}

/// The distinct tokens admit the same words as the tokens.
pub proof fn lemma_usable_words_distinct(vocabulary: Seq<Seq<char>>, tokens: Seq<Seq<char>>)
    ensures
        usable_words(vocabulary, first_occurrences(tokens)) == usable_words(vocabulary, tokens),
{
    let distinct = first_occurrences(tokens);
    assert forall|word: Seq<char>| admissible(word, distinct) <==> admissible(word, tokens) by {
        assert forall|k: int| 0 <= k < word.len() implies (letter_present(distinct, word[k])
            <==> letter_present(tokens, word[k])) by {
            lemma_first_occurrences_letters(tokens, word[k]);
        }
    }
    assert(usable_words(vocabulary, distinct) =~= usable_words(vocabulary, tokens));
}

/// A `SequenceTrie` from characters to marks, owned. Its field is private and
/// only `new` and `insert` below write to it: the trie is made by insertions
/// alone, so that each of its nodes but the root lies on the way to a word
/// that it stores. `sequence_trie` documents this as the invariant of the
/// type: every leaf holds a value.
#[verifier::external_body]
pub struct WordIndex {
    trie: SequenceTrie<char, bool>,
}

/// A node of the `SequenceTrie` of a `WordIndex`, borrowed: the words below
/// one prefix. Only `new` and `get_node` below make one.
#[verifier::external_body]
pub struct Vocabulary<'a> {
    words: &'a SequenceTrie<char, bool>,
}

/// The words that an index holds, each with the value stored for it.
pub uninterp spec fn index_entries(index: &WordIndex) -> Map<Seq<char>, bool>;

/// The words that a node holds below its prefix, each with its value.
pub uninterp spec fn vocabulary_entries(vocabulary: &Vocabulary) -> Map<Seq<char>, bool>;

impl View for WordIndex {
    type V = Entries;

    open spec fn view(&self) -> Entries {
        index_entries(self)
    }
}

impl<'a> View for Vocabulary<'a> {
    type V = Entries;

    open spec fn view(&self) -> Entries {
        vocabulary_entries(self)
    }
}

impl WordIndex {
    /// `SequenceTrie::new`: a trie that holds no word.
    #[verifier::external_body]
    fn new() -> (index: WordIndex)
        ensures
            index_entries(&index) == Entries::empty(),
    {
        WordIndex { trie: SequenceTrie::new() }
    }

    /// `SequenceTrie::insert_owned` with the characters of `word` as the key:
    /// the word is stored with `value`, the other words stay as they are, and
    /// the value that the word had before comes back.
    #[verifier::external_body]
    fn insert(&mut self, word: &str, value: bool) -> (previous: Option<bool>)
        ensures
            index_entries(final(self)) == index_entries(old(self)).insert(word@, value),
            previous == if index_entries(old(self)).contains_key(word@) {
                Some(index_entries(old(self))[word@])
            } else {
                None
            },
    {
        self.trie.insert_owned(word.chars(), value)
    }

    /// The whole index as a vocabulary to descend in.
    pub fn vocabulary(&self) -> (vocabulary: Vocabulary<'_>)
        ensures
            vocabulary@ == self@,
    {
        Vocabulary::new(self)
    }

    /// Indexes the words of `vocabulary` that the letters of `letter_set` can
    /// spell, each marked as a word.
    pub fn build(vocabulary: &[Word], letter_set: &Vec<String>) -> (index: WordIndex)
        ensures
            index@.dom() == usable_words(word_values(vocabulary@), token_values(letter_set@)),
            forall|word: Seq<char>| index@.contains_key(word) ==> index@[word],
    {
        let ghost words = word_values(vocabulary@);
        let ghost tokens = token_values(letter_set@);
        let mut index = WordIndex::new();
        let mut count: usize = 0;
        while count < vocabulary.len()
            invariant
                count <= vocabulary.len(),
                words == word_values(vocabulary@),
                tokens == token_values(letter_set@),
                index@.dom() == usable_words(words.take(count as int), tokens),
                forall|word: Seq<char>| index@.contains_key(word) ==> index@[word],
            decreases vocabulary.len() - count,
        {
            let word = &vocabulary[count];
            let ghost before = index@;
            if word.matches(letter_set) {
                index.insert(word.value.as_str(), true);
            }
            count += 1;
            proof {
                let earlier = words.take(count - 1);
                let now = words.take(count as int);
                assert(now == earlier.push(word@));
                assert forall|other: Seq<char>| now.contains(other) <==> (earlier.contains(other)
                    || other == word@) by {
                    if earlier.contains(other) {
                        let i = choose|i: int| 0 <= i < earlier.len() && earlier[i] == other;
                        assert(now[i] == other);
                    }
                    if other == word@ {
                        assert(now[count - 1] == other);
                    }
                }
                assert(index@.dom() =~= usable_words(now, tokens));
            }
        }
        assert(words.take(count as int) == words);
        index
    }
}

impl<'a> Vocabulary<'a> {
    /// Borrows the `SequenceTrie` of `index` at its root, which holds every
    /// word of the index.
    #[verifier::external_body]
    pub(crate) fn new(index: &'a WordIndex) -> (vocabulary: Vocabulary<'a>)
        ensures
            vocabulary_entries(&vocabulary) == index_entries(index),
    {
        Vocabulary { words: &index.trie }
    }

    /// `SequenceTrie::get_node`: the node reached from this one by the
    /// characters of `key`, which holds the words of this node that begin with
    /// `key`, each without that beginning. There is such a node where `key` is
    /// empty and where a word begins with `key`, and nowhere else: insertion
    /// makes a node only on the way to the word that it stores.
    #[verifier::external_body]
    fn get_node(&self, key: &Vec<char>) -> (node: Option<Vocabulary<'a>>)
        ensures
            node is Some <==> key@.len() == 0 || has_word_under(vocabulary_entries(self), key@),
            node matches Some(below) ==> vocabulary_entries(&below) == entries_under(
                vocabulary_entries(self),
                key@,
            ),
    {
        match self.words.get_node(key.iter()) {
            Some(words) => Some(Vocabulary { words }),
            None => None,
        }
    }

    /// `SequenceTrie::value`: the value stored for the prefix of this node
    /// itself, if it is a word.
    #[verifier::external_body]
    fn value(&self) -> (value: Option<bool>)
        ensures
            value == if vocabulary_entries(self).contains_key(Seq::empty()) {
                Some(vocabulary_entries(self)[Seq::empty()])
            } else {
                None
            },
    {
        self.words.value().copied()
    }

    /// `SequenceTrie::is_leaf`: whether the node has no child. A child is on
    /// the way to a stored word, so a leaf is a node beyond whose prefix no
    /// word goes on.
    #[verifier::external_body]
    fn is_leaf(&self) -> (leaf: bool)
        ensures
            leaf == !has_longer_word(vocabulary_entries(self)),
    {
        self.words.is_leaf()
    }

    /// Descends by the key of the step that `traversal_path` has just taken.
    /// `None` tells that no word of this node begins with that key.
    pub fn subvocabulary_using_traversal_ending(&self, traversal_path: &TraversalPath) -> (below:
        Option<Vocabulary<'a>>)
        ensures
            below is Some <==> traversal_path@.len() == 0 || has_word_under(
                self@,
                lookup_key(traversal_path@),
            ),
            below matches Some(node) ==> node@ == entries_under(
                self@,
                lookup_key(traversal_path@),
            ),
    {
        let key = traversal_path.last_chars();
        self.get_node(&key)
    }

    /// Whether the prefix of this node is itself a word.
    pub fn current_node_is_word_end(&self) -> (word_end: bool)
        ensures
            word_end == self@.contains_key(Seq::empty()),
    {
        self.value().is_some()
    }

    /// Whether some word goes on beyond the prefix of this node.
    pub fn has_longer_words(&self) -> (longer: bool)
        ensures
            longer == has_longer_word(self@),
    {
        !self.is_leaf()
    }
}

} // verus!
