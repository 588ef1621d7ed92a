//! The WordBank: packed tries grouped by word length (valence), with one
//! index per length and a cached listing of every word an index stores.

use vstd::prelude::*;
use crate::codec::TrieError;
use crate::packed::{push_char, spec_open, spec_search, views_of, PackedTrie, TrieView};

verus! {

/// An encoded dictionary holding words of one fixed length.
pub struct WordBankIndex {
    /// The fixed word length this index holds.
    pub valence: usize,
    /// Every stored word, cached from one all-wildcard search at build
    /// time, latest discovery first.
    pub all_words: Vec<String>,
    /// The all-wildcard pattern of this valence.
    pub all_wild_pattern: String,
    /// The packed trie.
    pub trie: PackedTrie,
}

impl WordBankIndex {
    /// Well-formedness: the trie is well formed, the cached pattern is the
    /// wildcard repeated `valence` times, and the cached word list is what
    /// searching that pattern yields.
    pub open spec fn wf(&self) -> bool {
        &&& self.trie.wf()
        &&& self.all_wild_pattern@ == Seq::new(self.valence as nat, |k: int| '*')
        &&& (spec_search(self.trie@, self.all_wild_pattern@, false) matches Some(ms) && views_of(
            self.all_words@,
        ) == ms.reverse())
    }

    /// Load a packed trie from its base-64 encoding and cache the list of
    /// every word it stores.
    pub fn new(valence: usize, trie_data: &str) -> (res: Result<WordBankIndex, TrieError>)
        requires
            6 * trie_data@.len() <= usize::MAX,
        ensures
            res matches Ok(idx) ==> idx.wf() && idx.valence == valence && (spec_open(trie_data@)
                matches Ok(v) && idx.trie@ == v),
            res matches Err(e) ==> spec_open(trie_data@) == Err::<TrieView, TrieError>(e) || (
            spec_open(trie_data@) matches Ok(v) && e == TrieError::CorruptData && spec_search(
                v,
                Seq::new(valence as nat, |k: int| '*'),
                false,
            ) is None),
    {
        let trie = match PackedTrie::from(trie_data) {
            Ok(t) => t,
            Err(e) => {
                return Err(e);
            },
        };
        let mut all_wild_pattern = String::new();
        let mut k: usize = 0;
        while k < valence
            invariant
                k <= valence,
                all_wild_pattern@ == Seq::new(k as nat, |j: int| '*'),
            decreases valence - k,
        {
            push_char(&mut all_wild_pattern, '*');
            proof {
                assert(all_wild_pattern@ =~= Seq::new((k + 1) as nat, |j: int| '*'));
            }
            k += 1;
        }
        let all_words = match trie.search(all_wild_pattern.as_str()) {
            Ok(v) => v,
            Err(e) => {
                return Err(e);
            },
        };
        Ok(WordBankIndex { valence, all_words, all_wild_pattern, trie })
    }
}

/// A set of word lists optimized for fast querying and efficient storage,
/// indexed by word length.
pub struct WordBank {
    /// The indexes; the one for valence `v` sits at position `v`.
    pub indexes: Vec<Option<WordBankIndex>>,
}

impl WordBank {
    /// Well-formedness: each installed index is well formed and sits at the
    /// position of its own valence.
    pub open spec fn wf(&self) -> bool {
        forall|j: int|
            0 <= j < self.indexes@.len() ==> ((#[trigger] self.indexes@[j]) matches Some(idx)
                ==> idx.wf() && idx.valence == j)
    }

    /// Create an empty WordBank.
    pub fn new() -> (r: WordBank)
        ensures
            r.wf(),
            r.indexes@.len() == 0,
    {
        WordBank { indexes: Vec::new() }
    }

    /// Install a word list for the given valence.
    ///
    /// The trie is given in its encoded binary form and should contain
    /// words of one fixed length.
    pub fn set_index(&mut self, valence: usize, trie_data: &str) -> (res: Result<(), TrieError>)
        requires
            old(self).wf(),
            6 * trie_data@.len() <= usize::MAX,
            valence < usize::MAX,
        ensures
            final(self).wf(),
            res matches Ok(()) ==> {
                &&& final(self).indexes@.len() == (if old(self).indexes@.len() >= valence + 1 {
                    old(self).indexes@.len() as int
                } else {
                    valence + 1
                })
                &&& (final(self).indexes@[valence as int] matches Some(idx) && idx.wf()
                    && idx.valence == valence && (spec_open(trie_data@) matches Ok(v) && idx.trie@
                    == v))
                &&& forall|j: int|
                    0 <= j < final(self).indexes@.len() && j != valence
                        ==> final(self).indexes@[j] == (if j < old(self).indexes@.len() {
                        old(self).indexes@[j]
                    } else {
                        None::<WordBankIndex>
                    })
            },
            res matches Err(e) ==> *final(self) == *old(self) && (spec_open(trie_data@) == Err::<
                TrieView,
                TrieError,
            >(e) || (spec_open(trie_data@) matches Ok(v) && e == TrieError::CorruptData
                && spec_search(v, Seq::new(valence as nat, |k: int| '*'), false) is None)),
    {
        let idx = match WordBankIndex::new(valence, trie_data) {
            Ok(i) => i,
            Err(e) => {
                return Err(e);
            },
        };
        while self.indexes.len() <= valence
            invariant
                old(self).wf(),
                self.wf(),
                valence < usize::MAX,
                self.indexes@.len() >= old(self).indexes@.len(),
                self.indexes@.len() <= valence + 1 || self.indexes@.len() == old(
                    self,
                ).indexes@.len(),
                forall|j: int|
                    0 <= j < self.indexes@.len() ==> #[trigger] self.indexes@[j] == (if j < old(
                        self,
                    ).indexes@.len() {
                        old(self).indexes@[j]
                    } else {
                        None::<WordBankIndex>
                    }),
            decreases valence + 1 - self.indexes@.len(),
        {
            self.indexes.push(None);
        }
        self.indexes[valence] = Some(idx);
        Ok(())
    }
}

} // verus!
