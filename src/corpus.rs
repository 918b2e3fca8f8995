use vstd::prelude::*;

use crate::adjacency::uniform;
use crate::text::words_view;

verus! {

/// All the words of one length, in the order they were added.
pub struct WordSet {
    pub word_length: usize,
    pub words: Vec<String>,
}

impl WordSet {
    pub open spec fn length_spec(&self) -> nat {
        self.word_length as nat
    }

    /// Every word of the set has the set's length.
    pub open spec fn wf(&self) -> bool {
        uniform(self.words@, self.word_length as nat)
    }

    /// An empty set for words of `word_length` characters.
    pub fn new(word_length: usize) -> (r: Self)
        ensures
            r.wf(),
            r.length_spec() == word_length,
            r.words@.len() == 0,
    {
        WordSet { word_length, words: Vec::new() }
    }

    /// The length of the words of this set.
    pub fn word_length(&self) -> (r: usize)
        ensures
            r == self.length_spec(),
    {
        self.word_length
    }
}

/// The words of a corpus grouped by length, shortest length first.
pub struct Corpus {
    sets: Vec<WordSet>,
}

impl Corpus {
    /// The buckets: each length with its words, in increasing order of length.
    pub closed spec fn buckets(&self) -> Seq<(nat, Seq<Seq<char>>)> {
        self.sets@.map_values(|s: WordSet| (s.word_length as nat, words_view(s.words@)))
    }

    /// The bucket lengths strictly increase.
    pub open spec fn lengths_increase(&self) -> bool {
        forall|i: int, j: int|
            0 <= i < j < self.buckets().len() ==> self.buckets()[i].0 < self.buckets()[j].0
    }

    pub closed spec fn wf(&self) -> bool {
        &&& forall|i: int| 0 <= i < self.sets@.len() ==> (#[trigger] self.sets@[i]).wf()
        &&& forall|i: int, j: int|
            0 <= i < j < self.sets@.len() ==> self.sets@[i].word_length < self.sets@[j].word_length
    }

    /// An empty corpus.
    pub fn new() -> (r: Self)
        ensures
            r.wf(),
            r.buckets().len() == 0,
    {
        let r = Corpus { sets: Vec::new() };
        assert(r.buckets() =~= Seq::<(nat, Seq<Seq<char>>)>::empty());
        r
    }

    /// The lengths that have words, in increasing order.
    pub fn sorted_keys(&self) -> (r: Vec<usize>)
        requires
            self.wf(),
        ensures
            r@.len() == self.buckets().len(),
            forall|i: int| 0 <= i < r@.len() ==> r@[i] == self.buckets()[i].0,
            forall|i: int, j: int| 0 <= i < j < r@.len() ==> r@[i] < r@[j],
    {
        let mut keys: Vec<usize> = Vec::new();
        let mut i: usize = 0;
        while i < self.sets.len()
            invariant
                self.wf(),
                i <= self.sets@.len(),
                keys@.len() == i,
                forall|k: int| 0 <= k < i ==> keys@[k] == self.sets@[k].word_length,
            decreases self.sets@.len() - i,
        {
            keys.push(self.sets[i].word_length);
            i = i + 1;
        }
        keys
    }

    /// The words of length `word_length`, if there are any.
    pub fn words_of_length(&self, word_length: usize) -> (r: Option<&WordSet>)
        requires
            self.wf(),
        ensures
            r matches Some(s) ==> s.wf() && s.length_spec() == word_length && exists|i: int|
                0 <= i < self.buckets().len() && #[trigger] self.buckets()[i] == (
                    word_length as nat,
                    words_view(s.words@),
                ),
            r is None ==> forall|i: int|
                0 <= i < self.buckets().len() ==> (#[trigger] self.buckets()[i]).0 != word_length,
    {
        let mut i: usize = 0;
        while i < self.sets.len()
            invariant
                self.wf(),
                i <= self.sets@.len(),
                forall|k: int| 0 <= k < i ==> self.sets@[k].word_length != word_length,
            decreases self.sets@.len() - i,
        {
            if self.sets[i].word_length == word_length {
                assert(self.buckets()[i as int] == (
                    word_length as nat,
                    words_view(self.sets@[i as int].words@),
                ));
                return Some(&self.sets[i]);
            }
            i = i + 1;
        }
        None
    }

    /// Adds a word to the bucket of its length, creating the bucket where
    /// there is none.
    pub fn add_word(&mut self, word: String)
        requires
            old(self).wf(),
        ensures
            final(self).wf(),
            final(self).lengths_increase(),
            ({
                let len = word@.len();
                let b = old(self).buckets();
                ||| exists|i: int|
                    0 <= i < b.len() && #[trigger] b[i].0 == len && final(self).buckets() == b.update(
                        i,
                        (len, b[i].1.push(word@)),
                    )
                ||| (forall|i: int| 0 <= i < b.len() ==> #[trigger] b[i].0 != len) && exists|p: int|
                    0 <= p <= b.len() && final(self).buckets() == #[trigger] b.insert(
                        p,
                        (len, seq![word@]),
                    )
            }),
    {
        let len = word.as_str().unicode_len();
        let ghost b = self.buckets();
        let n = self.sets.len();
        let mut i: usize = 0;
        while i < n && self.sets[i].word_length < len
            invariant
                self.wf(),
                b == self.buckets(),
                n == self.sets@.len(),
                i <= n,
                forall|k: int| 0 <= k < i ==> self.sets@[k].word_length < len,
            decreases n - i,
        {
            i = i + 1;
        }
        if i < n && self.sets[i].word_length == len {
            let ghost before = self.sets@;
            self.sets[i].words.push(word);
            proof {
                let nw = words_view(self.sets@[i as int].words@);
                assert(nw =~= words_view(before[i as int].words@).push(word@));
                assert(self.buckets() =~= b.update(i as int, (len as nat, b[i as int].1.push(word@))));
                assert(before[i as int].wf());
                assert forall|k: int| 0 <= k < nw.len() implies (#[trigger] nw[k]).len() == len by {
                    if k < nw.len() - 1 {
                        assert(nw[k] == words_view(before[i as int].words@)[k]);
                    }
                }
                assert(self.sets@[i as int].wf());
                assert(b[i as int].0 == len);
                assert(self.lengths_increase());
            }
            return ;
        }
        let ghost before = self.sets@;
        let mut set = WordSet::new(len);
        set.words.push(word);
        proof {
            assert(words_view(set.words@) =~= seq![word@]);
            assert(set.wf());
        }
        self.sets.insert(i, set);
        proof {
            assert(self.buckets() =~= b.insert(i as int, (len as nat, seq![word@])));
            assert(self.lengths_increase());
            assert forall|k: int| 0 <= k < b.len() implies #[trigger] b[k].0 != len by {
                if k < i {
                    assert(before[k].word_length < len);
                } else {
                    assert(before[k].word_length > len) by {
                        if k > i {
                            assert(before[i as int].word_length < before[k].word_length);
                        }
                    }
                }
            }
        }
    }
}

} // verus!
