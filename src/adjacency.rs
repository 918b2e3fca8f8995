use vstd::prelude::*;

use crate::text::{chars_of, join_words, line_of, words_view};

verus! {

/// Number of positions below `n` at which `a` and `b` hold different characters.
pub open spec fn mismatches(a: Seq<char>, b: Seq<char>, n: int) -> nat
    decreases n,
{
    if n <= 0 {
        0
    } else {
        mismatches(a, b, n - 1) + if a[n - 1] != b[n - 1] { 1nat } else { 0nat }
    }
}

/// Two words are one letter apart when they have the same length and differ
/// in exactly one position.
pub open spec fn one_letter_apart(a: Seq<char>, b: Seq<char>) -> bool {
    a.len() == b.len() && mismatches(a, b, a.len() as int) == 1
}

/// The words of `words`, in order, that are one letter apart from `w`.
pub open spec fn adjacent_within(words: Seq<Seq<char>>, w: Seq<char>) -> Seq<Seq<char>> {
    words.filter(|x: Seq<char>| one_letter_apart(w, x))
}

/// Every word of `words` has length `n`.
pub open spec fn all_of_length(words: Seq<Seq<char>>, n: nat) -> bool {
    forall|i: int| 0 <= i < words.len() ==> (#[trigger] words[i]).len() == n
}

pub proof fn lemma_mismatches_symmetric(a: Seq<char>, b: Seq<char>, n: int)
    ensures
        mismatches(a, b, n) == mismatches(b, a, n),
    decreases n,
{
    if n > 0 {
        lemma_mismatches_symmetric(a, b, n - 1);
    }
}

proof fn lemma_mismatches_grow(a: Seq<char>, b: Seq<char>, m: int, n: int)
    requires
        m <= n,
    ensures
        mismatches(a, b, m) <= mismatches(a, b, n),
    decreases n - m,
{
    if m < n {
        lemma_mismatches_grow(a, b, m, n - 1);
    }
}

/// The one-letter-apart relation is symmetric: `a` is adjacent to `b`
/// exactly when `b` is adjacent to `a`.
pub proof fn lemma_one_letter_apart_symmetric(a: Seq<char>, b: Seq<char>)
    ensures
        one_letter_apart(a, b) == one_letter_apart(b, a),
{
    lemma_mismatches_symmetric(a, b, a.len() as int);
}

/// Within a bucket of words of one length, `words[i]` is listed among the
/// neighbours of `words[j]` exactly when `words[j]` is listed among the
/// neighbours of `words[i]`.
pub proof fn lemma_adjacency_symmetric(words: Seq<Seq<char>>, i: int, j: int)
    requires
        0 <= i < words.len(),
        0 <= j < words.len(),
    ensures
        adjacent_within(words, words[i]).contains(words[j])
            == adjacent_within(words, words[j]).contains(words[i]),
{
    let pi = |x: Seq<char>| one_letter_apart(words[i], x);
    let pj = |x: Seq<char>| one_letter_apart(words[j], x);
    lemma_one_letter_apart_symmetric(words[i], words[j]);
    broadcast use vstd::seq_lib::group_filter_ensures;

    if one_letter_apart(words[i], words[j]) {
        words.lemma_filter_contains(pi, j);
        words.lemma_filter_contains(pj, i);
    } else {
        if adjacent_within(words, words[i]).contains(words[j]) {
            let k = choose|k: int|
                0 <= k < words.filter(pi).len() && words.filter(pi)[k] == words[j];
            assert(pi(words.filter(pi)[k]));
        }
        if adjacent_within(words, words[j]).contains(words[i]) {
            let k = choose|k: int|
                0 <= k < words.filter(pj).len() && words.filter(pj)[k] == words[i];
            assert(pj(words.filter(pj)[k]));
        }
    }
}

fn chars_one_apart(a: &Vec<char>, b: &Vec<char>) -> (r: bool)
    requires
        a@.len() == b@.len(),
    ensures
        r == one_letter_apart(a@, b@),
{
    let n = a.len();
    let mut diffs: usize = 0;
    let mut i: usize = 0;
    while i < n
        invariant
            n == a@.len(),
            n == b@.len(),
            i <= n,
            diffs == mismatches(a@, b@, i as int),
            diffs < 2,
        decreases n - i,
    {
        if a[i] != b[i] {
            diffs = diffs + 1;
        }
        i = i + 1;
        if diffs == 2 {
            proof {
                lemma_mismatches_grow(a@, b@, i as int, n as int);
            }
            return false;
        }
    }
    diffs == 1
}

/// Whether two words of the same length differ in exactly one character
/// position. The scan stops at the second difference.
pub fn one_letter_different(w1: &str, w2: &str) -> (r: bool)
    requires
        w1@.len() == w2@.len(),
    ensures
        r == one_letter_apart(w1@, w2@),
{
    let a = chars_of(w1);
    let b = chars_of(w2);
    chars_one_apart(&a, &b)
}

/// A word together with the words of its bucket that are one letter apart from it.
pub struct WordAdjacencyList {
    pub anchor: String,
    pub adjacent_words: Vec<String>,
}

impl WordAdjacencyList {
    pub open spec fn adjacent_view(&self) -> Seq<Seq<char>> {
        words_view(self.adjacent_words@)
    }

    /// A list that holds only its anchor.
    pub fn new(anchor: String) -> (r: Self)
        ensures
            r.anchor@ == anchor@,
            r.adjacent_view() == Seq::<Seq<char>>::empty(),
    {
        let r = WordAdjacencyList { anchor, adjacent_words: Vec::new() };
        assert(r.adjacent_view() =~= Seq::<Seq<char>>::empty());
        r
    }

    /// Appends one word to the adjacency list.
    pub fn add_adjacent_word(&mut self, word: String)
        ensures
            final(self).anchor@ == old(self).anchor@,
            final(self).adjacent_view() == old(self).adjacent_view().push(word@),
    {
        self.adjacent_words.push(word);
        assert(self.adjacent_view() =~= old(self).adjacent_view().push(word@));
    }

    /// The adjacency-file line of this list: the anchor, a space, then the
    /// adjacent words separated by single spaces.
    pub fn line(&self) -> (r: String)
        ensures
            r@ == line_of(self.anchor@, self.adjacent_view()),
    {
        join_line(&self.anchor, &self.adjacent_words)
    }
}

/// Builds `anchor + " " + words joined by spaces`.
pub fn join_line(anchor: &String, words: &Vec<String>) -> (r: String)
    ensures
        r@ == line_of(anchor@, words_view(words@)),
{
    proof {
        reveal_strlit(" ");
    }
    let mut out = anchor.clone();
    out.append(" ");
    let rest = join_words(words);
    out.append(rest.as_str());
    assert(out@ =~= line_of(anchor@, words_view(words@)));
    out
}

/// Whether every word of `words` has length `n`.
pub open spec fn uniform(words: Seq<String>, n: nat) -> bool {
    all_of_length(words_view(words), n)
}

/// For every word of an equal-length bucket, the list of the other words of
/// the bucket that are one letter apart from it, in bucket order.
pub fn calc_adjacency_lists(words: &Vec<String>) -> (r: Vec<WordAdjacencyList>)
    requires
        words@.len() > 0 ==> uniform(words@, words@[0]@.len()),
    ensures
        r@.len() == words@.len(),
        forall|i: int|
            0 <= i < r@.len() ==> {
                &&& (#[trigger] r@[i]).anchor@ == words@[i]@
                &&& r@[i].adjacent_view() == adjacent_within(words_view(words@), words@[i]@)
            },
{
    let n = words.len();
    let ghost ws = words_view(words@);
    let mut letters: Vec<Vec<char>> = Vec::new();
    let mut k: usize = 0;
    while k < n
        invariant
            n == words@.len(),
            k <= n,
            letters@.len() == k,
            forall|i: int| 0 <= i < k ==> (#[trigger] letters@[i])@ == words@[i]@,
        decreases n - k,
    {
        letters.push(chars_of(words[k].as_str()));
        k = k + 1;
    }
    let mut out: Vec<WordAdjacencyList> = Vec::new();
    let mut i: usize = 0;
    while i < n
        invariant
            n == words@.len(),
            ws == words_view(words@),
            words@.len() > 0 ==> uniform(words@, words@[0]@.len()),
            letters@.len() == n,
            forall|t: int| 0 <= t < n ==> (#[trigger] letters@[t])@ == words@[t]@,
            i <= n,
            out@.len() == i,
            forall|t: int|
                0 <= t < i ==> {
                    &&& (#[trigger] out@[t]).anchor@ == words@[t]@
                    &&& out@[t].adjacent_view() == adjacent_within(ws, words@[t]@)
                },
        decreases n - i,
    {
        let mut list = WordAdjacencyList::new(words[i].clone());
        let ghost w = words@[i as int]@;
        let ghost p = |x: Seq<char>| one_letter_apart(w, x);
        let mut j: usize = 0;
        assert(ws.subrange(0, 0).filter(p) =~= Seq::<Seq<char>>::empty()) by {
            reveal_with_fuel(Seq::filter, 1);
        }
        while j < n
            invariant
                n == words@.len(),
                ws == words_view(words@),
                words@.len() > 0 ==> uniform(words@, words@[0]@.len()),
                letters@.len() == n,
                forall|t: int| 0 <= t < n ==> (#[trigger] letters@[t])@ == words@[t]@,
                i < n,
                j <= n,
                w == words@[i as int]@,
                p == (|x: Seq<char>| one_letter_apart(w, x)),
                list.anchor@ == w,
                list.adjacent_view() == ws.subrange(0, j as int).filter(p),
            decreases n - j,
        {
            assert(letters@[i as int]@.len() == letters@[j as int]@.len()) by {
                assert(words_view(words@)[i as int] == words@[i as int]@);
                assert(words_view(words@)[j as int] == words@[j as int]@);
            }
            let close = chars_one_apart(&letters[i], &letters[j]);
            assert(ws.subrange(0, j + 1).drop_last() =~= ws.subrange(0, j as int));
            assert(ws.subrange(0, j + 1).last() == words@[j as int]@);
            assert(ws.subrange(0, j + 1).filter(p) == ws.subrange(0, j as int).filter(p) + if p(
                words@[j as int]@,
            ) {
                seq![words@[j as int]@]
            } else {
                Seq::<Seq<char>>::empty()
            }) by {
                reveal_with_fuel(Seq::filter, 1);
            }
            if close {
                list.add_adjacent_word(words[j].clone());
            }
            j = j + 1;
        }
        assert(ws.subrange(0, n as int) =~= ws);
        out.push(list);
        i = i + 1;
    }
    out
}

/// Whether a bucket is worth an adjacency file: it holds more than two
/// words and at least one word has a neighbour.
pub open spec fn worth_writing(words: Seq<String>) -> bool {
    let ws = words_view(words);
    ws.len() > 2 && exists|i: int|
        0 <= i < ws.len() && (#[trigger] adjacent_within(ws, ws[i])).len() > 0
}

/// The lines of the adjacency file of one bucket, or `None` where no file is
/// written: a bucket of two words or fewer, or one where no word has a
/// neighbour. Each word of the bucket gets one line, in bucket order.
pub fn adjacency_file_lines(words: &Vec<String>) -> (r: Option<Vec<String>>)
    requires
        words@.len() > 0 ==> uniform(words@, words@[0]@.len()),
    ensures
        r is Some <==> worth_writing(words@),
        r matches Some(lines) ==> {
            &&& lines@.len() == words@.len()
            &&& forall|i: int|
                0 <= i < lines@.len() ==> (#[trigger] lines@[i])@ == line_of(
                    words@[i]@,
                    adjacent_within(words_view(words@), words@[i]@),
                )
        },
{
    let ghost ws = words_view(words@);
    if words.len() <= 2 {
        return None;
    }
    let lists = calc_adjacency_lists(words);
    let mut lines: Vec<String> = Vec::new();
    let mut any = false;
    let mut i: usize = 0;
    while i < lists.len()
        invariant
            lists@.len() == words@.len(),
            ws == words_view(words@),
            forall|t: int|
                0 <= t < lists@.len() ==> {
                    &&& (#[trigger] lists@[t]).anchor@ == words@[t]@
                    &&& lists@[t].adjacent_view() == adjacent_within(ws, words@[t]@)
                },
            i <= lists@.len(),
            lines@.len() == i,
            forall|t: int|
                0 <= t < i ==> (#[trigger] lines@[t])@ == line_of(
                    words@[t]@,
                    adjacent_within(ws, words@[t]@),
                ),
            any <==> exists|t: int| 0 <= t < i && (#[trigger] adjacent_within(ws, ws[t])).len() > 0,
        decreases lists@.len() - i,
    {
        assert(ws[i as int] == words@[i as int]@);
        if lists[i].adjacent_words.len() > 0 {
            any = true;
        }
        lines.push(lists[i].line());
        i = i + 1;
    }
    if any {
        Some(lines)
    } else {
        None
    }
}

} // verus!
