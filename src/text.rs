use vstd::prelude::*;
use vstd::std_specs::iter::IteratorSpec;

verus! {

broadcast use vstd::string::group_string_axioms;

/// The characters of `s`, in order.
pub fn chars_of(s: &str) -> (r: Vec<char>)
    ensures
        r@ == s@,
{
    let n = s.unicode_len();
    let mut it = s.chars();
    let mut out: Vec<char> = Vec::new();
    let mut k: usize = 0;
    while k < n
        invariant
            n == s@.len(),
            k <= n,
            out@ == s@.subrange(0, k as int),
            it.obeys_prophetic_iter_laws(),
            it.remaining() == s@.subrange(k as int, n as int),
        decreases n - k,
    {
        let c = it.next();
        match c {
            Some(ch) => {
                out.push(ch);
            },
            None => {},
        }
        assert(out@ == s@.subrange(0, k + 1));
        k = k + 1;
    }
    assert(out@ == s@);
    out
}

/// The character sequences of a sequence of strings.
pub open spec fn words_view(v: Seq<String>) -> Seq<Seq<char>> {
    v.map_values(|s: String| s@)
}

/// Words separated by single spaces.
pub open spec fn joined(ws: Seq<Seq<char>>) -> Seq<char>
    decreases ws.len(),
{
    if ws.len() == 0 {
        Seq::empty()
    } else if ws.len() == 1 {
        ws[0]
    } else {
        joined(ws.drop_last()) + seq![' '] + ws.last()
    }
}

/// An adjacency-file line: the anchor, one space, then the adjacent words
/// separated by single spaces.
pub open spec fn line_of(anchor: Seq<char>, adjacent: Seq<Seq<char>>) -> Seq<char> {
    anchor + seq![' '] + joined(adjacent)
}

/// Joins the words with single spaces.
pub fn join_words(words: &Vec<String>) -> (r: String)
    ensures
        r@ == joined(words_view(words@)),
{
    let ghost ws = words_view(words@);
    let mut out = String::new();
    let mut i: usize = 0;
    while i < words.len()
        invariant
            ws == words_view(words@),
            i <= words@.len(),
            out@ == joined(ws.subrange(0, i as int)),
        decreases words@.len() - i,
    {
        proof {
            reveal_strlit(" ");
        }
        assert(ws.subrange(0, i + 1).drop_last() =~= ws.subrange(0, i as int));
        if i > 0 {
            out.append(" ");
        }
        out.append(words[i].as_str());
        proof {
            if i == 0 {
                assert(joined(ws.subrange(0, 0)) =~= Seq::<char>::empty());
                assert(out@ =~= ws[0]);
            }
        }
        i = i + 1;
    }
    assert(ws.subrange(0, words@.len() as int) =~= ws);
    out
}

/// `w` holds no space.
pub open spec fn space_free(w: Seq<char>) -> bool {
    forall|i: int| 0 <= i < w.len() ==> w[i] != ' '
}

/// Length of the run of non-space characters at the end of `s`.
pub open spec fn trailing_run(s: Seq<char>) -> nat
    decreases s.len(),
{
    if s.len() == 0 || s.last() == ' ' {
        0
    } else {
        trailing_run(s.drop_last()) + 1
    }
}

/// The words of `s`: its maximal runs of non-space characters, in order.
pub open spec fn tokens(s: Seq<char>) -> Seq<Seq<char>>
    decreases s.len(),
{
    if s.len() == 0 {
        Seq::empty()
    } else if s.last() == ' ' {
        tokens(s.drop_last())
    } else {
        let k = trailing_run(s);
        if 0 < k <= s.len() {
            tokens(s.subrange(0, s.len() - k)).push(s.subrange(s.len() - k, s.len() as int))
        } else {
            Seq::empty()
        }
    }
}

proof fn lemma_trailing_run_bound(s: Seq<char>)
    ensures
        trailing_run(s) <= s.len(),
        s.len() > 0 && s.last() != ' ' ==> trailing_run(s) > 0,
    decreases s.len(),
{
    if s.len() > 0 && s.last() != ' ' {
        lemma_trailing_run_bound(s.drop_last());
    }
}

/// A run of non-space characters `s[i..j]` preceded by a space or the
/// start is the trailing run of `s[..j]`.
proof fn lemma_trailing_run_at(s: Seq<char>, i: int, j: int)
    requires
        0 <= i <= j <= s.len(),
        i == 0 || s[i - 1] == ' ',
        forall|t: int| i <= t < j ==> s[t] != ' ',
    ensures
        trailing_run(s.subrange(0, j)) == j - i,
    decreases j - i,
{
    if j > i {
        assert(s.subrange(0, j).drop_last() =~= s.subrange(0, j - 1));
        lemma_trailing_run_at(s, i, j - 1);
    } else {
        if i > 0 {
            assert(s.subrange(0, j).last() == s[i - 1]);
        }
    }
}

proof fn lemma_tokens_word_end(s: Seq<char>, i: int, j: int)
    requires
        0 <= i < j <= s.len(),
        i == 0 || s[i - 1] == ' ',
        forall|t: int| i <= t < j ==> s[t] != ' ',
    ensures
        tokens(s.subrange(0, j)) == tokens(s.subrange(0, i)).push(s.subrange(i, j)),
{
    lemma_trailing_run_at(s, i, j);
    let p = s.subrange(0, j);
    assert(p.last() == s[j - 1]);
    assert(p.subrange(0, p.len() - (j - i)) =~= s.subrange(0, i));
    assert(p.subrange(p.len() - (j - i), p.len() as int) =~= s.subrange(i, j));
}

/// Splits a line into its words, dropping empty ones.
pub fn split_words(line: &str) -> (r: Vec<String>)
    ensures
        words_view(r@) == tokens(line@),
{
    let cs = chars_of(line);
    let n = cs.len();
    let mut out: Vec<String> = Vec::new();
    let mut i: usize = 0;
    while i < n
        invariant
            n == cs@.len(),
            cs@ == line@,
            i <= n,
            i < n ==> (i == 0 || cs@[i - 1] == ' '),
            words_view(out@) == tokens(line@.subrange(0, i as int)),
        decreases n - i,
    {
        if cs[i] == ' ' {
            assert(line@.subrange(0, i + 1).drop_last() =~= line@.subrange(0, i as int));
            i = i + 1;
        } else {
            let mut j: usize = i;
            while j < n && cs[j] != ' '
                invariant
                    n == cs@.len(),
                    i <= j <= n,
                    forall|t: int| i <= t < j ==> cs@[t] != ' ',
                decreases n - j,
            {
                j = j + 1;
            }
            let word = line.substring_char(i, j).to_owned();
            proof {
                lemma_tokens_word_end(line@, i as int, j as int);
            }
            let ghost before = out@;
            out.push(word);
            assert(words_view(out@) =~= words_view(before).push(line@.subrange(i as int, j as int)));
            if j < n {
                assert(line@.subrange(0, j + 1).drop_last() =~= line@.subrange(0, j as int));
                i = j + 1;
            } else {
                i = j;
            }
        }
    }
    assert(line@.subrange(0, n as int) =~= line@);
    out
}

/// Every word is non-empty and holds no space.
pub open spec fn plain_words(ws: Seq<Seq<char>>) -> bool {
    forall|i: int| 0 <= i < ws.len() ==> (#[trigger] ws[i]).len() > 0 && space_free(ws[i])
}

proof fn lemma_tokens_after_space(x: Seq<char>, w: Seq<char>)
    requires
        w.len() > 0,
        space_free(w),
    ensures
        tokens(x + seq![' '] + w) == tokens(x).push(w),
{
    let s = x + seq![' '] + w;
    let i = x.len() as int + 1;
    assert(s.subrange(0, s.len() as int) =~= s);
    assert forall|t: int| i <= t < s.len() implies s[t] != ' ' by {
        assert(s[t] == w[t - i]);
    }
    lemma_tokens_word_end(s, i, s.len() as int);
    assert(s.subrange(i, s.len() as int) =~= w);
    let p = s.subrange(0, i);
    assert(p.drop_last() =~= x);
}

/// A line made of an anchor and its neighbours splits back into them.
pub proof fn lemma_tokens_of_line(anchor: Seq<char>, ws: Seq<Seq<char>>)
    requires
        anchor.len() > 0,
        space_free(anchor),
        plain_words(ws),
    ensures
        tokens(line_of(anchor, ws)) == seq![anchor] + ws,
    decreases ws.len(),
{
    if ws.len() == 0 {
        let s = anchor + seq![' '];
        assert(line_of(anchor, ws) =~= s);
        assert(s.drop_last() =~= anchor);
        lemma_tokens_after_space(Seq::empty(), anchor);
        assert(Seq::<char>::empty() + seq![' '] + anchor =~= seq![' '] + anchor);
        assert(tokens(seq![' '] + anchor) == tokens(Seq::<char>::empty()).push(anchor));
        let q = seq![' '] + anchor;
        lemma_tokens_word_end(anchor, 0, anchor.len() as int);
        assert(anchor.subrange(0, anchor.len() as int) =~= anchor);
        assert(anchor.subrange(0, 0) =~= Seq::<char>::empty());
        assert(seq![anchor] + ws =~= Seq::<Seq<char>>::empty().push(anchor));
    } else if ws.len() == 1 {
        let w = ws[0];
        assert(line_of(anchor, ws) =~= anchor + seq![' '] + w);
        lemma_tokens_after_space(anchor, w);
        lemma_tokens_word_end(anchor, 0, anchor.len() as int);
        assert(anchor.subrange(0, anchor.len() as int) =~= anchor);
        assert(anchor.subrange(0, 0) =~= Seq::<char>::empty());
        assert(seq![anchor] + ws =~= Seq::<Seq<char>>::empty().push(anchor).push(w));
    } else {
        let front = ws.drop_last();
        let w = ws.last();
        assert(plain_words(front));
        lemma_tokens_of_line(anchor, front);
        assert(line_of(anchor, ws) =~= line_of(anchor, front) + seq![' '] + w);
        lemma_tokens_after_space(line_of(anchor, front), w);
        assert(seq![anchor] + ws =~= (seq![anchor] + front).push(w));
    }
}

/// Texts separated by commas.
pub open spec fn comma_list(ws: Seq<Seq<char>>) -> Seq<char>
    decreases ws.len(),
{
    if ws.len() == 0 {
        Seq::empty()
    } else if ws.len() == 1 {
        ws[0]
    } else {
        comma_list(ws.drop_last()) + seq![','] + ws.last()
    }
}

/// Joins the texts with commas.
pub fn join_commas(words: &Vec<String>) -> (r: String)
    ensures
        r@ == comma_list(words_view(words@)),
{
    let ghost ws = words_view(words@);
    let mut out = String::new();
    let mut i: usize = 0;
    while i < words.len()
        invariant
            ws == words_view(words@),
            i <= words@.len(),
            out@ == comma_list(ws.subrange(0, i as int)),
        decreases words@.len() - i,
    {
        proof {
            reveal_strlit(",");
        }
        assert(ws.subrange(0, i + 1).drop_last() =~= ws.subrange(0, i as int));
        if i > 0 {
            out.append(",");
        }
        out.append(words[i].as_str());
        proof {
            if i == 0 {
                assert(comma_list(ws.subrange(0, 0)) =~= Seq::<char>::empty());
                assert(out@ =~= ws[0]);
            }
        }
        i = i + 1;
    }
    assert(ws.subrange(0, words@.len() as int) =~= ws);
    out
}

} // verus!
