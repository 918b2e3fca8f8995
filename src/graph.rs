use vstd::prelude::*;

use std::collections::HashMap;


verus! {

/// The component of a vertex whose component has not been computed.
pub const UNASSIGNED: usize = usize::MAX;

/// What the word index holds: word to arena position.
pub uninterp spec fn index_entries(m: HashMap<String, usize>) -> Map<Seq<char>, usize>;

/// Relies on `HashMap::new`: a new map holds no entry.
#[verifier::external_body]
fn index_new() -> (r: HashMap<String, usize>)
    ensures
        index_entries(r).dom().len() == 0,
        index_entries(r).dom().finite(),
{
    HashMap::new()
}

/// Relies on `HashMap::insert`: afterwards `k` maps to `v` and the other
/// entries are as they were.
#[verifier::external_body]
fn index_insert(m: &mut HashMap<String, usize>, k: String, v: usize)
    ensures
        index_entries(*final(m)) == index_entries(*old(m)).insert(k@, v),
{
    m.insert(k, v);
}

/// Relies on `HashMap::get`: the value stored under `k`, if any.
#[verifier::external_body]
fn index_get(m: &HashMap<String, usize>, k: &str) -> (r: Option<usize>)
    ensures
        index_entries(*m).contains_key(k@) ==> r == Some(index_entries(*m)[k@]),
        !index_entries(*m).contains_key(k@) ==> r is None,
{
    m.get(k).copied()
}

/// A word of the graph with the arena positions of its neighbours.
pub struct Vertex {
    pub word: String,
    pub adjacency_list: Vec<usize>,
    pub component: usize,
}

impl Vertex {
    /// A vertex with no neighbour and no component yet.
    pub fn new(word: String) -> (r: Self)
        ensures
            r.word@ == word@,
            r.adjacency_list@ == Seq::<usize>::empty(),
            r.component == UNASSIGNED,
    {
        let r = Vertex { word, adjacency_list: Vec::new(), component: UNASSIGNED };
        assert(r.adjacency_list@ =~= Seq::<usize>::empty());
        r
    }

    /// The word of this vertex.
    pub fn word(&self) -> (r: &String)
        ensures
            r@ == self.word@,
    {
        &self.word
    }

    /// The number of neighbours.
    pub fn degree(&self) -> (r: usize)
        ensures
            r == self.adjacency_list@.len(),
    {
        self.adjacency_list.len()
    }

    /// A leaf has exactly one neighbour.
    pub fn is_leaf(&self) -> (r: bool)
        ensures
            r == (self.adjacency_list@.len() == 1),
    {
        self.adjacency_list.len() == 1
    }
}

/// The words of a sequence of vertices.
pub open spec fn vertex_words(vs: Seq<Vertex>) -> Seq<Seq<char>> {
    vs.map_values(|v: Vertex| v.word@)
}

/// The adjacency lists of a sequence of vertices.
pub open spec fn vertex_adjacency(vs: Seq<Vertex>) -> Seq<Seq<usize>> {
    vs.map_values(|v: Vertex| v.adjacency_list@)
}

/// The component numbers of a sequence of vertices.
pub open spec fn vertex_labels(vs: Seq<Vertex>) -> Seq<usize> {
    vs.map_values(|v: Vertex| v.component)
}

/// Every listed neighbour is a position of the arena.
pub open spec fn edges_in_range(adj: Seq<Seq<usize>>) -> bool {
    forall|i: int, t: int|
        0 <= i < adj.len() && 0 <= t < adj[i].len() ==> #[trigger] adj[i][t] < adj.len()
}

/// No word occurs twice.
pub open spec fn distinct_words(ws: Seq<Seq<char>>) -> bool {
    forall|i: int, j: int| 0 <= i < ws.len() && 0 <= j < ws.len() && i != j ==> ws[i] != ws[j]
}

/// `v` is listed as a neighbour of `u`.
pub open spec fn has_edge(adj: Seq<Seq<usize>>, u: int, v: int) -> bool {
    0 <= u < adj.len() && adj[u].contains(v as usize) && 0 <= v
}

/// `p` is a walk: positions of the arena, each one a neighbour of the one before.
pub open spec fn is_walk(adj: Seq<Seq<usize>>, p: Seq<int>) -> bool {
    &&& p.len() >= 1
    &&& forall|t: int| 0 <= t < p.len() ==> 0 <= #[trigger] p[t] < adj.len()
    &&& forall|t: int| 0 <= t < p.len() - 1 ==> has_edge(adj, #[trigger] p[t], p[t + 1])
}

/// `b` can be reached from `a` by following zero or more edges.
pub open spec fn reachable(adj: Seq<Seq<usize>>, a: int, b: int) -> bool {
    exists|p: Seq<int>| #[trigger] is_walk(adj, p) && p[0] == a && p.last() == b
}

/// The labelling computed by the component analysis, with `roots[c]` the
/// vertex from which component `c` was explored:
/// every vertex has a component below `roots.len()`, each component is
/// reachable from its root, and no edge leads to a later component.
pub open spec fn components_labelled(adj: Seq<Seq<usize>>, labels: Seq<usize>, roots: Seq<int>) -> bool {
    &&& labels.len() == adj.len()
    &&& forall|i: int| 0 <= i < labels.len() ==> (#[trigger] labels[i]) < roots.len()
    &&& forall|c: int|
        0 <= c < roots.len() ==> 0 <= #[trigger] roots[c] < labels.len() && labels[roots[c]] == c
    &&& forall|i: int|
        0 <= i < labels.len() ==> #[trigger] reachable(adj, roots[labels[i] as int], i)
    &&& forall|i: int, t: int|
        0 <= i < adj.len() && 0 <= t < adj[i].len() ==> labels[#[trigger] adj[i][t] as int]
            <= labels[i]
}

/// A graph of words: an arena of vertices and an index from word to position.
pub struct Graph {
    pub vertices: Vec<Vertex>,
    pub word_to_index: HashMap<String, usize>,
    pub roots: Ghost<Seq<int>>,
    pub num_components: usize,
}

impl Graph {
    pub open spec fn words(&self) -> Seq<Seq<char>> {
        vertex_words(self.vertices@)
    }

    pub open spec fn adjacency(&self) -> Seq<Seq<usize>> {
        vertex_adjacency(self.vertices@)
    }

    pub open spec fn labels(&self) -> Seq<usize> {
        vertex_labels(self.vertices@)
    }

    /// The index holds exactly the words of the arena, each with its position.
    pub open spec fn index_matches(&self) -> bool {
        let m = index_entries(self.word_to_index);
        &&& forall|i: int|
            0 <= i < self.vertices@.len() ==> #[trigger] m.contains_key(self.words()[i])
                && m[self.words()[i]] == i
        &&& forall|k: Seq<char>|
            #[trigger] m.contains_key(k) ==> m[k] < self.vertices@.len() && self.words()[m[k] as int]
                == k
    }

    /// The roots of the components, one per component.
    pub open spec fn component_roots(&self) -> Seq<int> {
        self.roots@
    }

    pub open spec fn component_count(&self) -> nat {
        self.component_roots().len()
    }

    pub open spec fn wf(&self) -> bool {
        &&& self.index_matches()
        &&& self.num_components as nat == self.component_roots().len()
        &&& distinct_words(self.words())
        &&& edges_in_range(self.adjacency())
    }

    /// The components have been computed.
    pub open spec fn has_components(&self) -> bool {
        components_labelled(self.adjacency(), self.labels(), self.component_roots())
    }

    /// A graph with no vertex.
    pub fn new() -> (r: Self)
        ensures
            r.wf(),
            r.words().len() == 0,
            r.component_count() == 0,
    {
        Graph {
            vertices: Vec::new(),
            word_to_index: index_new(),
            roots: Ghost(Seq::empty()),
            num_components: 0,
        }
    }

    /// The number of vertices.
    pub fn size(&self) -> (r: usize)
        ensures
            r == self.vertices@.len(),
    {
        self.vertices.len()
    }

    /// The length of the words of this graph, that of its first word.
    pub fn word_length(&self) -> (r: usize)
        requires
            self.vertices@.len() > 0,
        ensures
            r == self.words()[0].len(),
    {
        self.vertices[0].word.as_str().unicode_len()
    }

    /// The arena position of `word`, if it is a word of the graph.
    pub fn get_index_for_word(&self, word: &str) -> (r: Option<usize>)
        requires
            self.wf(),
        ensures
            r matches Some(i) ==> i < self.words().len() && self.words()[i as int] == word@,
            r is None ==> !self.words().contains(word@),
    {
        let r = index_get(&self.word_to_index, word);
        proof {
            if r is None && self.words().contains(word@) {
                let i = choose|i: int| 0 <= i < self.words().len() && self.words()[i] == word@;
                assert(index_entries(self.word_to_index).contains_key(self.words()[i]));
            }
        }
        r
    }

    /// Adds a vertex for a word that is not yet in the graph, with no
    /// neighbour. The computed components no longer apply afterwards.
    pub fn add_anchor_word(&mut self, word: String)
        requires
            old(self).wf(),
            !old(self).words().contains(word@),
        ensures
            final(self).wf(),
            final(self).words() == old(self).words().push(word@),
            final(self).adjacency() == old(self).adjacency().push(Seq::<usize>::empty()),
            final(self).component_count() == 0,
    {
        let ghost old_words = self.words();
        let key = word.clone();
        let n = self.vertices.len();
        self.vertices.push(Vertex::new(word));
        index_insert(&mut self.word_to_index, key, n);
        self.roots = Ghost(Seq::empty());
        self.num_components = 0;
        assert(self.words() =~= old_words.push(word@));
        assert(self.adjacency() =~= old(self).adjacency().push(Seq::<usize>::empty()));
        proof {
            let m = index_entries(self.word_to_index);
            assert forall|i: int| 0 <= i < self.vertices@.len() implies #[trigger] m.contains_key(
                self.words()[i],
            ) && m[self.words()[i]] == i by {
                if i < n {
                    assert(old_words[i] != word@) by {
                        assert(old_words.contains(old_words[i]));
                    }
                }
            }
            assert forall|i: int, j: int|
                0 <= i < self.words().len() && 0 <= j < self.words().len() && i != j implies self.words()[i]
                != self.words()[j] by {
                if i == n {
                    assert(old_words.contains(self.words()[j]));
                } else if j == n {
                    assert(old_words.contains(self.words()[i]));
                }
            }
            assert forall|i: int, t: int|
                0 <= i < self.adjacency().len() && 0 <= t < self.adjacency()[i].len() implies #[trigger] self.adjacency()[i][t]
                < self.adjacency().len() by {
                assert(self.adjacency()[i] == old(self).adjacency()[i]);
            }
        }
    }

    /// Appends `reachable_word` to the neighbours of `anchor_word`; both are
    /// words of the graph. The computed components no longer apply afterwards.
    pub fn add_reachable_word(&mut self, anchor_word: &str, reachable_word: &str)
        requires
            old(self).wf(),
            old(self).words().contains(anchor_word@),
            old(self).words().contains(reachable_word@),
        ensures
            final(self).wf(),
            final(self).words() == old(self).words(),
            exists|a: int, b: int|
                0 <= a < old(self).words().len() && 0 <= b < old(self).words().len()
                    && old(self).words()[a] == anchor_word@ && old(self).words()[b]
                    == reachable_word@ && final(self).adjacency() == old(self).adjacency().update(
                    a,
                    old(self).adjacency()[a].push(b as usize),
                ),
            final(self).component_count() == 0,
    {
        let a = self.get_index_for_word(anchor_word);
        let b = self.get_index_for_word(reachable_word);
        match (a, b) {
            (Some(a), Some(b)) => {
                self.push_neighbour(a, b);
            },
            _ => {
                assert(false);
            },
        }
    }

    pub(crate) fn push_neighbour(&mut self, a: usize, b: usize)
        requires
            old(self).wf(),
            a < old(self).vertices@.len(),
            b < old(self).vertices@.len(),
        ensures
            final(self).wf(),
            final(self).words() == old(self).words(),
            final(self).adjacency() == old(self).adjacency().update(
                a as int,
                old(self).adjacency()[a as int].push(b),
            ),
            final(self).component_count() == 0,
    {
        let ghost old_words = self.words();
        self.vertices[a].adjacency_list.push(b);
        self.roots = Ghost(Seq::empty());
        self.num_components = 0;
        assert(self.words() =~= old_words);
        assert(self.adjacency() =~= old(self).adjacency().update(
            a as int,
            old(self).adjacency()[a as int].push(b),
        ));
    }
}

} // verus!
