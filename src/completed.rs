use vstd::prelude::*;

use std::collections::HashMap;

use crate::text::words_view;

verus! {

broadcast use vstd::std_specs::hash::group_hash_axioms;

/// The words whose chain files exist, by word length.
pub struct CompletedWords {
    completed: HashMap<usize, Vec<String>>,
}

/// The names listed for `word_length`, in listing order.
pub open spec fn listed(listings: Seq<(usize, Seq<Seq<char>>)>, word_length: usize) -> Seq<
    Seq<char>,
>
    decreases listings.len(),
{
    if listings.len() == 0 {
        Seq::empty()
    } else {
        listed(listings.drop_last(), word_length) + if listings.last().0 == word_length {
            listings.last().1
        } else {
            Seq::empty()
        }
    }
}

/// The view of directory listings: each length with the names found for it.
pub open spec fn listings_view(listings: Seq<(usize, Vec<String>)>) -> Seq<(usize, Seq<Seq<char>>)> {
    listings.map_values(|e: (usize, Vec<String>)| (e.0, words_view(e.1@)))
}

impl CompletedWords {
    /// The completed words of one length, in the order they were added.
    pub closed spec fn words_of(&self, word_length: usize) -> Seq<Seq<char>> {
        if self.completed@.contains_key(word_length) {
            words_view(self.completed@[word_length]@)
        } else {
            Seq::empty()
        }
    }

    /// No word is completed.
    pub fn new() -> (r: Self)
        ensures
            forall|l: usize| #[trigger] r.words_of(l) == Seq::<Seq<char>>::empty(),
    {
        CompletedWords { completed: HashMap::new() }
    }

    /// Records `word` as completed for `word_length`.
    pub fn add(&mut self, word_length: usize, word: String)
        ensures
            forall|l: usize|
                #[trigger] final(self).words_of(l) == if l == word_length {
                    old(self).words_of(l).push(word@)
                } else {
                    old(self).words_of(l)
                },
    {
        let ghost w = word@;
        let mut list = match self.completed.remove(&word_length) {
            Some(v) => v,
            None => Vec::new(),
        };
        let ghost before = list@;
        list.push(word);
        self.completed.insert(word_length, list);
        proof {
            assert forall|l: usize| #[trigger] self.words_of(l) == if l == word_length {
                old(self).words_of(l).push(w)
            } else {
                old(self).words_of(l)
            } by {
                if l == word_length {
                    assert(words_view(before.push(list@.last())) =~= words_view(before).push(w));
                    if !old(self).completed@.contains_key(l) {
                        assert(words_view(before) =~= Seq::<Seq<char>>::empty());
                    }
                }
            }
        }
    }

    /// Returns the number of words complete of the specified length.
    pub fn num_complete(&self, word_length: usize) -> (r: usize)
        ensures
            r == self.words_of(word_length).len(),
    {
        match self.completed.get(&word_length) {
            Some(v) => v.len(),
            None => 0,
        }
    }

    /// The words completed for a length.
    pub fn completed_words_of_length(&self, word_length: usize) -> (r: &[String])
        ensures
            words_view(r@) == self.words_of(word_length),
    {
        match self.completed.get(&word_length) {
            Some(v) => v.as_slice(),
            None => {
                let r: &[String] = &[];
                assert(words_view(r@) =~= Seq::<Seq<char>>::empty());
                r
            },
        }
    }
}

/// Gathers the completed words from directory listings: for each word
/// length, the base names of the chain files found for it.
pub fn get_completed_words(listings: &Vec<(usize, Vec<String>)>) -> (r: CompletedWords)
    ensures
        forall|l: usize| #[trigger] r.words_of(l) == listed(listings_view(listings@), l),
{
    let ghost lv = listings_view(listings@);
    let mut done = CompletedWords::new();
    let mut i: usize = 0;
    while i < listings.len()
        invariant
            lv == listings_view(listings@),
            i <= listings@.len(),
            forall|l: usize| #[trigger] done.words_of(l) == listed(lv.subrange(0, i as int), l),
        decreases listings@.len() - i,
    {
        let len = listings[i].0;
        let names = &listings[i].1;
        let ghost prefix = lv.subrange(0, i as int);
        let mut j: usize = 0;
        while j < names.len()
            invariant
                lv == listings_view(listings@),
                i < listings@.len(),
                len == listings@[i as int].0,
                names@ == listings@[i as int].1@,
                prefix == lv.subrange(0, i as int),
                j <= names@.len(),
                forall|l: usize|
                    #[trigger] done.words_of(l) == listed(prefix, l) + if l == len {
                        words_view(names@).subrange(0, j as int)
                    } else {
                        Seq::empty()
                    },
            decreases names@.len() - j,
        {
            done.add(len, names[j].clone());
            proof {
                assert forall|l: usize| #[trigger] done.words_of(l) == listed(prefix, l) + if l == len {
                    words_view(names@).subrange(0, j + 1)
                } else {
                    Seq::empty()
                } by {
                    if l == len {
                        assert(words_view(names@).subrange(0, j + 1) =~= words_view(names@).subrange(
                            0,
                            j as int,
                        ).push(names@[j as int]@));
                    } else {
                        assert(listed(prefix, l) + Seq::<Seq<char>>::empty() =~= listed(prefix, l));
                    }
                }
            }
            j = j + 1;
        }
        proof {
            assert(lv.subrange(0, i + 1).drop_last() =~= prefix);
            assert forall|l: usize| #[trigger] done.words_of(l) == listed(lv.subrange(0, i + 1), l) by {
                assert(words_view(names@).subrange(0, names@.len() as int) =~= words_view(names@));
                assert(lv.subrange(0, i + 1).last() == lv[i as int]);
            }
        }
        i = i + 1;
    }
    assert(lv.subrange(0, listings@.len() as int) =~= lv);
    done
}

} // verus!
