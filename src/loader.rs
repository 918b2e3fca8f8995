use vstd::prelude::*;

use crate::adjacency::{adjacent_within, join_line, lemma_adjacency_symmetric, one_letter_apart};
use crate::components::{label_count, lemma_listing_covers, precedes, symmetric, Component};
use crate::graph::{distinct_words, Graph};
use crate::text::{lemma_tokens_of_line, line_of, plain_words, space_free, split_words, tokens, words_view};

verus! {

/// Why a set of adjacency lines does not describe a graph.
#[derive(Clone, Copy, Debug, PartialEq, Eq)]
pub enum LoadError {
    /// A line holds no word.
    EmptyLine,
    /// Two lines have the same anchor word.
    DuplicateWord,
    /// A neighbour is not the anchor of any line.
    UnknownWord,
}

/// The words of each line.
pub open spec fn line_words(lines: Seq<String>) -> Seq<Seq<Seq<char>>> {
    lines.map_values(|l: String| tokens(l@))
}

/// The first word of each line.
pub open spec fn anchors_of(tl: Seq<Seq<Seq<char>>>) -> Seq<Seq<char>> {
    tl.map_values(|t: Seq<Seq<char>>| t[0])
}

pub open spec fn no_empty_line(tl: Seq<Seq<Seq<char>>>) -> bool {
    forall|i: int| 0 <= i < tl.len() ==> (#[trigger] tl[i]).len() > 0
}

/// Every neighbour named on a line is the anchor of some line.
pub open spec fn neighbours_known(tl: Seq<Seq<Seq<char>>>) -> bool {
    forall|i: int, t: int|
        0 <= i < tl.len() && 1 <= t < tl[i].len() ==> anchors_of(tl).contains(#[trigger] tl[i][t])
}

/// `words` and `adj` are the graph that the lines describe: one vertex per
/// line, in line order, and the neighbours of each in the order listed.
pub open spec fn loads_as(words: Seq<Seq<char>>, adj: Seq<Seq<usize>>, tl: Seq<Seq<Seq<char>>>) -> bool {
    &&& words == anchors_of(tl)
    &&& adj.len() == tl.len()
    &&& forall|i: int|
        0 <= i < tl.len() ==> (#[trigger] adj[i]).len() + 1 == tl[i].len() && forall|t: int|
            0 <= t < adj[i].len() ==> (#[trigger] adj[i][t]) < words.len() && words[adj[i][t] as int]
                == tl[i][t + 1]
}

impl Graph {
    /// Builds a graph from adjacency-file lines, in two passes: first a vertex
    /// for the anchor (first word) of every line, then the neighbours of each
    /// line resolved to positions. The components are computed.
    pub fn from_adjacency_lines(lines: &Vec<String>) -> (r: Result<Graph, LoadError>)
        ensures
            r matches Err(LoadError::EmptyLine) <==> !no_empty_line(line_words(lines@)),
            r matches Err(LoadError::DuplicateWord) <==> no_empty_line(line_words(lines@))
                && !distinct_words(anchors_of(line_words(lines@))),
            r matches Err(LoadError::UnknownWord) <==> no_empty_line(line_words(lines@))
                && distinct_words(anchors_of(line_words(lines@))) && !neighbours_known(
                line_words(lines@),
            ),
            r matches Ok(g) ==> {
                &&& g.wf()
                &&& g.has_components()
                &&& loads_as(g.words(), g.adjacency(), line_words(lines@))
            },
    {
        let ghost tl = line_words(lines@);
        let n = lines.len();
        let mut toks: Vec<Vec<String>> = Vec::new();
        let mut i: usize = 0;
        while i < n
            invariant
                n == lines@.len(),
                tl == line_words(lines@),
                i <= n,
                toks@.len() == i,
                forall|k: int| 0 <= k < i ==> words_view((#[trigger] toks@[k])@) == tl[k],
                forall|k: int| 0 <= k < i ==> (#[trigger] tl[k]).len() > 0,
            decreases n - i,
        {
            let t = split_words(lines[i].as_str());
            if t.len() == 0 {
                assert(tl[i as int].len() == 0);
                return Err(LoadError::EmptyLine);
            }
            toks.push(t);
            i = i + 1;
        }
        let ghost anchors = anchors_of(tl);
        let mut g = Graph::new();
        i = 0;
        while i < n
            invariant
                n == lines@.len(),
                tl == line_words(lines@),
                anchors == anchors_of(tl),
                no_empty_line(tl),
                i <= n,
                toks@.len() == n,
                forall|k: int| 0 <= k < n ==> words_view((#[trigger] toks@[k])@) == tl[k],
                g.wf(),
                g.words() == anchors.subrange(0, i as int),
                forall|k: int| 0 <= k < i ==> (#[trigger] g.adjacency()[k]).len() == 0,
            decreases n - i,
        {
            assert(words_view(toks@[i as int]@)[0] == toks@[i as int]@[0]@);
            let a = &toks[i][0];
            match g.get_index_for_word(a.as_str()) {
                Some(k) => {
                    assert(anchors[k as int] == anchors[i as int]);
                    return Err(LoadError::DuplicateWord);
                },
                None => {},
            }
            g.add_anchor_word(a.clone());
            assert(anchors.subrange(0, i + 1) =~= anchors.subrange(0, i as int).push(anchors[i as int]));
            i = i + 1;
        }
        assert(anchors.subrange(0, n as int) =~= anchors);
        i = 0;
        while i < n
            invariant
                n == lines@.len(),
                tl == line_words(lines@),
                anchors == anchors_of(tl),
                no_empty_line(tl),
                distinct_words(anchors),
                i <= n,
                toks@.len() == n,
                forall|k: int| 0 <= k < n ==> words_view((#[trigger] toks@[k])@) == tl[k],
                g.wf(),
                g.words() == anchors,
                g.adjacency().len() == n,
                forall|k: int| i <= k < n ==> (#[trigger] g.adjacency()[k]).len() == 0,
                forall|k: int|
                    0 <= k < i ==> (#[trigger] g.adjacency()[k]).len() + 1 == tl[k].len() && forall|
                        t: int,
                    |
                        0 <= t < g.adjacency()[k].len() ==> (#[trigger] g.adjacency()[k][t]) < n
                            && anchors[g.adjacency()[k][t] as int] == tl[k][t + 1],
                forall|k: int, t: int|
                    0 <= k < i && 1 <= t < tl[k].len() ==> anchors.contains(#[trigger] tl[k][t]),
            decreases n - i,
        {
            let row = &toks[i];
            let m = row.len();
            let mut t: usize = 1;
            while t < m
                invariant
                    n == lines@.len(),
                    tl == line_words(lines@),
                    anchors == anchors_of(tl),
                    no_empty_line(tl),
                    distinct_words(anchors),
                    i < n,
                    row@ == toks@[i as int]@,
                    m == row@.len(),
                    words_view(row@) == tl[i as int],
                    1 <= t <= m,
                    g.wf(),
                    g.words() == anchors,
                    g.adjacency().len() == n,
                    forall|k: int| i < k < n ==> (#[trigger] g.adjacency()[k]).len() == 0,
                    forall|k: int|
                        0 <= k < i ==> (#[trigger] g.adjacency()[k]).len() + 1 == tl[k].len()
                            && forall|s: int|
                            0 <= s < g.adjacency()[k].len() ==> (#[trigger] g.adjacency()[k][s]) < n
                                && anchors[g.adjacency()[k][s] as int] == tl[k][s + 1],
                    g.adjacency()[i as int].len() + 1 == t,
                    forall|s: int|
                        0 <= s < g.adjacency()[i as int].len() ==> (#[trigger] g.adjacency()[i as int][s])
                            < n && anchors[g.adjacency()[i as int][s] as int] == tl[i as int][s + 1],
                    forall|k: int, s: int|
                        0 <= k < i && 1 <= s < tl[k].len() ==> anchors.contains(#[trigger] tl[k][s]),
                    forall|s: int| 1 <= s < t ==> anchors.contains(#[trigger] tl[i as int][s]),
                decreases m - t,
            {
                assert(words_view(row@)[t as int] == row@[t as int]@);
                match g.get_index_for_word(row[t].as_str()) {
                    None => {
                        proof {
                            assert(!neighbours_known(tl)) by {
                                assert(!anchors.contains(tl[i as int][t as int]));
                            }
                        }
                        return Err(LoadError::UnknownWord);
                    },
                    Some(b) => {
                        let ghost adj_before = g.adjacency();
                        g.push_neighbour(i, b);
                        proof {
                            assert(anchors.contains(tl[i as int][t as int])) by {
                                assert(anchors[b as int] == tl[i as int][t as int]);
                            }
                            assert forall|k: int| 0 <= k < n && k != i implies #[trigger] g.adjacency()[k]
                                == adj_before[k] by {}
                        }
                    },
                }
                t = t + 1;
            }
            i = i + 1;
        }
        g.calculate_components();
        Ok(g)
    }

    /// The adjacency-file line of vertex `i`.
    pub open spec fn line_spec(&self, i: int) -> Seq<char> {
        line_of(self.words()[i], self.neighbour_words(i))
    }

    /// The words of the neighbours of vertex `i`, in adjacency order.
    pub open spec fn neighbour_words(&self, i: int) -> Seq<Seq<char>> {
        self.adjacency()[i].map_values(|v: usize| self.words()[v as int])
    }

    /// The words of the neighbours of vertex `i`, in adjacency order.
    pub fn neighbour_names(&self, i: usize) -> (r: Vec<String>)
        requires
            self.wf(),
            i < self.vertices@.len(),
        ensures
            words_view(r@) == self.neighbour_words(i as int),
    {
        let v = &self.vertices[i];
        let mut names: Vec<String> = Vec::new();
        let m = v.adjacency_list.len();
        let mut t: usize = 0;
        while t < m
            invariant
                self.wf(),
                i < self.vertices@.len(),
                v == self.vertices@[i as int],
                m == v.adjacency_list@.len(),
                t <= m,
                names@.len() == t,
                forall|s: int|
                    0 <= s < t ==> (#[trigger] names@[s])@ == self.words()[v.adjacency_list@[s] as int],
            decreases m - t,
        {
            let w = v.adjacency_list[t];
            assert(self.adjacency()[i as int][t as int] == w);
            names.push(self.vertices[w].word.clone());
            t = t + 1;
        }
        assert(words_view(names@) =~= self.neighbour_words(i as int));
        names
    }

    fn vertex_line(&self, i: usize) -> (r: String)
        requires
            self.wf(),
            i < self.vertices@.len(),
        ensures
            r@ == self.line_spec(i as int),
    {
        let names = self.neighbour_names(i);
        join_line(&self.vertices[i].word, &names)
    }

    /// One adjacency-file line per vertex, in arena order.
    pub fn adjacency_lines(&self) -> (r: Vec<String>)
        requires
            self.wf(),
        ensures
            r@.len() == self.vertices@.len(),
            forall|i: int| 0 <= i < r@.len() ==> (#[trigger] r@[i])@ == self.line_spec(i),
    {
        let n = self.vertices.len();
        let mut out: Vec<String> = Vec::new();
        let mut i: usize = 0;
        while i < n
            invariant
                self.wf(),
                n == self.vertices@.len(),
                i <= n,
                out@.len() == i,
                forall|k: int| 0 <= k < i ==> (#[trigger] out@[k])@ == self.line_spec(k),
            decreases n - i,
        {
            out.push(self.vertex_line(i));
            i = i + 1;
        }
        out
    }

    /// The lines of the vertices of component `c`, in arena order.
    pub open spec fn component_lines_spec(&self, c: int) -> Seq<Seq<char>>
        decreases self.vertices@.len(),
    {
        self.lines_below(c, self.vertices@.len() as int)
    }

    /// The lines of the vertices of component `c` among the first `k`.
    pub open spec fn lines_below(&self, c: int, k: int) -> Seq<Seq<char>>
        decreases k,
    {
        if k <= 0 {
            Seq::empty()
        } else if self.labels()[k - 1] as int == c {
            self.lines_below(c, k - 1).push(self.line_spec(k - 1))
        } else {
            self.lines_below(c, k - 1)
        }
    }

    /// `c` is the largest component; among components of that size, the one
    /// with the lowest number.
    pub open spec fn is_largest(&self, c: int) -> bool {
        &&& 0 <= c < self.component_count()
        &&& forall|d: int|
            0 <= d < self.component_count() && d != c ==> precedes(
                Component { number: c as usize, num_vertices: label_count(self.labels(), c) as usize },
                Component { number: d as usize, num_vertices: label_count(self.labels(), d) as usize },
            )
    }

    /// The adjacency-file lines of the largest component (see `is_largest`),
    /// in arena order.
    pub fn largest_component_lines(&self) -> (r: Vec<String>)
        requires
            self.wf(),
            self.has_components(),
            self.vertices@.len() > 0,
        ensures
            exists|c: int|
                self.is_largest(c) && #[trigger] self.component_lines_spec(c) == words_view(r@),
    {
        let comps = self.components();
        assert(self.labels()[0] < self.component_count());
        let c = comps[0].number;
        proof {
            assert forall|d: int| 0 <= d < self.component_count() && d != c implies precedes(
                Component { number: c as usize, num_vertices: label_count(self.labels(), c as int) as usize },
                Component { number: d as usize, num_vertices: label_count(self.labels(), d) as usize },
            ) by {
                lemma_listing_covers(self, comps@, d);
                let j = choose|j: int| 0 <= j < comps@.len() && comps@[j].number == d as usize;
                assert(j != 0);
                assert(precedes(comps@[0], comps@[j]));
            }
        }
        let n = self.vertices.len();
        let mut out: Vec<String> = Vec::new();
        let mut i: usize = 0;
        while i < n
            invariant
                self.wf(),
                n == self.vertices@.len(),
                i <= n,
                words_view(out@) == self.lines_below(c as int, i as int),
            decreases n - i,
        {
            let ghost before = out@;
            if self.vertices[i].component == c {
                out.push(self.vertex_line(i));
                assert(words_view(out@) =~= words_view(before).push(self.line_spec(i as int)));
            }
            i = i + 1;
        }
        assert(self.is_largest(c as int));
        assert(self.component_lines_spec(c as int) == words_view(out@));
        out
    }
}

/// Every word of the graph is non-empty and holds no space.
pub open spec fn plain_graph_words(g: &Graph) -> bool {
    plain_words(g.words())
}

/// Writing the lines of a graph and loading them again gives back the same
/// graph: the loader accepts them, and the only vertices and adjacency lists
/// it can build from them are those of the graph, in the same order.
pub proof fn lemma_round_trip(g: &Graph, lines: Seq<String>)
    requires
        g.wf(),
        plain_graph_words(g),
        lines.len() == g.vertices@.len(),
        forall|i: int| 0 <= i < lines.len() ==> (#[trigger] lines[i])@ == g.line_spec(i),
    ensures
        no_empty_line(line_words(lines)),
        distinct_words(anchors_of(line_words(lines))),
        neighbours_known(line_words(lines)),
        forall|words: Seq<Seq<char>>, adj: Seq<Seq<usize>>|
            #[trigger] loads_as(words, adj, line_words(lines)) ==> words == g.words() && adj
                == g.adjacency(),
{
    let tl = line_words(lines);
    let ws = g.words();
    assert forall|i: int| 0 <= i < tl.len() implies #[trigger] tl[i] == seq![ws[i]] + g.neighbour_words(i) by {
        assert(plain_words(g.neighbour_words(i))) by {
            assert forall|t: int| 0 <= t < g.neighbour_words(i).len() implies (#[trigger] g.neighbour_words(i)[t]).len() > 0
                && space_free(g.neighbour_words(i)[t]) by {
                let v = g.adjacency()[i][t] as int;
                assert(g.neighbour_words(i)[t] == ws[v]);
            }
        }
        lemma_tokens_of_line(ws[i], g.neighbour_words(i));
    }
    assert(anchors_of(tl) =~= ws) by {
        assert forall|i: int| 0 <= i < tl.len() implies anchors_of(tl)[i] == ws[i] by {
            assert(tl[i][0] == ws[i]);
        }
    }
    assert forall|i: int, t: int|
        0 <= i < tl.len() && 1 <= t < tl[i].len() implies anchors_of(tl).contains(#[trigger] tl[i][t]) by {
        let v = g.adjacency()[i][t - 1] as int;
        assert(tl[i][t] == g.neighbour_words(i)[t - 1]);
        assert(ws[v] == tl[i][t]);
    }
    assert forall|words: Seq<Seq<char>>, adj: Seq<Seq<usize>>|
        #[trigger] loads_as(words, adj, tl) implies words == ws && adj == g.adjacency() by {
        assert forall|i: int| 0 <= i < adj.len() implies #[trigger] adj[i] == g.adjacency()[i] by {
            assert forall|t: int| 0 <= t < adj[i].len() implies adj[i][t] == g.adjacency()[i][t] by {
                assert(tl[i][t + 1] == g.neighbour_words(i)[t]);
                assert(ws[adj[i][t] as int] == ws[g.adjacency()[i][t] as int]);
            }
            assert(adj[i] =~= g.adjacency()[i]);
        }
        assert(adj =~= g.adjacency());
    }
}

/// The graph loaded from the adjacency lines of a bucket of distinct words
/// has an edge from `u` to `v` exactly when it has one from `v` to `u`.
pub proof fn lemma_bucket_graph_symmetric(words: Seq<Seq<char>>, lines: Seq<String>, g: &Graph)
    requires
        plain_words(words),
        distinct_words(words),
        lines.len() == words.len(),
        forall|i: int|
            0 <= i < lines.len() ==> (#[trigger] lines[i])@ == line_of(
                words[i],
                adjacent_within(words, words[i]),
            ),
        loads_as(g.words(), g.adjacency(), line_words(lines)),
        g.vertices@.len() <= usize::MAX,
    ensures
        symmetric(g.adjacency()),
{
    let tl = line_words(lines);
    let adj = g.adjacency();
    assert forall|i: int| 0 <= i < tl.len() implies #[trigger] tl[i] == seq![words[i]] + adjacent_within(
        words,
        words[i],
    ) by {
        let nb = adjacent_within(words, words[i]);
        broadcast use vstd::seq_lib::group_filter_ensures;

        assert(plain_words(nb)) by {
            assert forall|t: int| 0 <= t < nb.len() implies (#[trigger] nb[t]).len() > 0 && space_free(
                nb[t],
            ) by {
                let p = |x: Seq<char>| one_letter_apart(words[i], x);
                assert(nb == words.filter(p));
                assert(nb.contains(nb[t]));
                words.lemma_filter_contains_rev(p, nb[t]);
                let k = choose|k: int| 0 <= k < words.len() && words[k] == nb[t];
            }
        }
        lemma_tokens_of_line(words[i], nb);
    }
    assert(anchors_of(tl) =~= words) by {
        assert forall|i: int| 0 <= i < tl.len() implies anchors_of(tl)[i] == words[i] by {
            assert(tl[i][0] == words[i]);
        }
    }
    assert forall|u: int, t: int| 0 <= u < adj.len() && 0 <= t < adj[u].len() implies (#[trigger] adj[u][t])
        < adj.len() && adj[adj[u][t] as int].contains(u as usize) by {
        let v = adj[u][t] as int;
        assert(words[v] == tl[u][t + 1]);
        assert(tl[u][t + 1] == adjacent_within(words, words[u])[t]);
        assert(adjacent_within(words, words[u]).contains(words[v]));
        lemma_adjacency_symmetric(words, u, v);
        let nb = adjacent_within(words, words[v]);
        let s = choose|s: int| 0 <= s < nb.len() && nb[s] == words[u];
        assert(tl[v][s + 1] == nb[s]);
        assert(words[adj[v][s] as int] == words[u]);
        assert(adj[v][s] as int == u);
        assert(adj[v][s] == u as usize);
    }
}

} // verus!
