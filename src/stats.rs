use vstd::prelude::*;

use crate::components::{components_listing, label_count, Component};
use crate::graph::Graph;
use crate::directories::{decimal, number_text};
use crate::text::{comma_list, join_commas, words_view};

verus! {

/// Number of components below `k` that hold exactly `s` vertices.
pub open spec fn sized_count(labels: Seq<usize>, k: int, s: nat) -> nat
    decreases k,
{
    if k <= 0 {
        0
    } else {
        sized_count(labels, k - 1, s) + if label_count(labels, k - 1) == s { 1nat } else { 0nat }
    }
}

/// Number of leaves of component `c` among the first `k` vertices.
pub open spec fn leaves_below(adj: Seq<Seq<usize>>, labels: Seq<usize>, c: int, k: int) -> nat
    decreases k,
{
    if k <= 0 {
        0
    } else {
        leaves_below(adj, labels, c, k - 1) + if labels[k - 1] as int == c && adj[k - 1].len() == 1 {
            1nat
        } else {
            0nat
        }
    }
}

/// `m` has the highest degree, and is the last vertex with that degree.
pub open spec fn last_max_degree(adj: Seq<Seq<usize>>, m: int) -> bool {
    &&& 0 <= m < adj.len()
    &&& forall|j: int| 0 <= j < adj.len() ==> (#[trigger] adj[j]).len() <= adj[m].len()
    &&& forall|j: int| m < j < adj.len() ==> (#[trigger] adj[j]).len() < adj[m].len()
}

/// Summary figures of the graph of one word length.
pub struct WordLengthStatistics {
    pub word_length: usize,
    pub total_word_count: usize,
    pub num_components: usize,
    pub num_one_components: usize,
    pub num_two_components: usize,
    pub num_three_components: usize,
    pub largest_five_component_counts: Vec<usize>,
    pub largest_component_leaf_count: usize,
    pub max_adjacents_count: usize,
    pub max_adjacents_word: String,
    pub max_adjacencts_list: Vec<String>,
}

/// The bound on the length of a simple path in a component of `size`
/// vertices with `leaves` leaves: a path holds at most two leaves.
pub open spec fn path_upper_bound(size: int, leaves: int) -> int {
    if leaves > 2 {
        size - leaves + 2
    } else {
        size
    }
}

impl WordLengthStatistics {
    /// The number of vertices of the largest component.
    pub fn largest_component_word_count(&self) -> (r: usize)
        requires
            self.largest_five_component_counts@.len() > 0,
        ensures
            r == self.largest_five_component_counts@[0],
    {
        self.largest_five_component_counts[0]
    }

    /// The sizes of the largest components, in decimal, separated by commas.
    pub fn top_five_text(&self) -> (r: String)
        ensures
            r@ == comma_list(
                self.largest_five_component_counts@.map_values(|n: usize| decimal(n as nat)),
            ),
    {
        let mut texts: Vec<String> = Vec::new();
        let mut i: usize = 0;
        while i < self.largest_five_component_counts.len()
            invariant
                i <= self.largest_five_component_counts@.len(),
                texts@.len() == i,
                forall|k: int|
                    0 <= k < i ==> (#[trigger] texts@[k])@ == decimal(
                        self.largest_five_component_counts@[k] as nat,
                    ),
            decreases self.largest_five_component_counts@.len() - i,
        {
            texts.push(number_text(self.largest_five_component_counts[i]));
            i = i + 1;
        }
        assert(words_view(texts@) =~= self.largest_five_component_counts@.map_values(
            |n: usize| decimal(n as nat),
        ));
        join_commas(&texts)
    }

    /// The neighbours of the vertex of highest degree, separated by commas.
    pub fn max_adjacents_text(&self) -> (r: String)
        ensures
            r@ == comma_list(words_view(self.max_adjacencts_list@)),
    {
        join_commas(&self.max_adjacencts_list)
    }

    /// An upper bound on the length of the longest simple path in the
    /// largest component.
    pub fn largest_component_upper_bound(&self) -> (r: usize)
        requires
            self.largest_five_component_counts@.len() > 0,
            self.largest_component_leaf_count <= self.largest_five_component_counts@[0],
        ensures
            r == path_upper_bound(
                self.largest_five_component_counts@[0] as int,
                self.largest_component_leaf_count as int,
            ),
    {
        let size = self.largest_component_word_count();
        if self.largest_component_leaf_count > 2 {
            size - (self.largest_component_leaf_count - 2)
        } else {
            size
        }
    }
}

/// `s` holds the statistics of `g`, whose components are `comps` in the
/// order of `components()`.
pub open spec fn stats_from(g: &Graph, comps: Seq<Component>, s: &WordLengthStatistics) -> bool {
    let labels = g.labels();
    let k = g.component_count() as int;
    let top = if comps.len() < 5 { comps.len() as int } else { 5 };
    &&& components_listing(g, comps)
    &&& comps.len() > 0
    &&& s.word_length == g.words()[0].len()
    &&& s.total_word_count == g.vertices@.len()
    &&& s.num_components == k
    &&& s.num_one_components == sized_count(labels, k, 1)
    &&& s.num_two_components == sized_count(labels, k, 2)
    &&& s.num_three_components == sized_count(labels, k, 3)
    &&& s.largest_five_component_counts@ == comps.subrange(0, top).map_values(
        |c: Component| c.num_vertices,
    )
    &&& s.largest_component_leaf_count == leaves_below(
        g.adjacency(),
        labels,
        comps[0].number as int,
        labels.len() as int,
    )
    &&& exists|m: int|
        last_max_degree(g.adjacency(), m) && s.max_adjacents_count == g.adjacency()[m].len()
            && s.max_adjacents_word@ == g.words()[m] && #[trigger] words_view(
            s.max_adjacencts_list@,
        ) == g.neighbour_words(m)
}

/// `s` holds the statistics of `g`.
pub open spec fn stats_of(g: &Graph, s: &WordLengthStatistics) -> bool {
    exists|comps: Seq<Component>| #[trigger] components_listing(g, comps) && stats_from(g, comps, s)
}

proof fn lemma_leaves_within(adj: Seq<Seq<usize>>, labels: Seq<usize>, c: int, k: int)
    requires
        0 <= k <= labels.len(),
    ensures
        leaves_below(adj, labels, c, k) <= label_count(labels.subrange(0, k), c),
    decreases k,
{
    if k > 0 {
        assert(labels.subrange(0, k).drop_last() =~= labels.subrange(0, k - 1));
        lemma_leaves_within(adj, labels, c, k - 1);
    }
}

proof fn lemma_small_sizes(labels: Seq<usize>, k: int)
    ensures
        sized_count(labels, k, 1) + sized_count(labels, k, 2) + sized_count(labels, k, 3) <= if k
            < 0 {
            0
        } else {
            k
        },
    decreases k,
{
    if k > 0 {
        lemma_small_sizes(labels, k - 1);
    }
}

/// The statistics agree with each other: the components of one, two and
/// three vertices are among all components, and the path bound of the
/// largest component does not exceed its size.
pub proof fn lemma_stats_consistent(g: &Graph, s: &WordLengthStatistics)
    requires
        g.wf(),
        g.has_components(),
        stats_of(g, s),
    ensures
        s.num_one_components + s.num_two_components + s.num_three_components <= s.num_components,
        s.largest_five_component_counts@.len() > 0,
        s.largest_component_leaf_count <= s.largest_five_component_counts@[0],
        path_upper_bound(
            s.largest_five_component_counts@[0] as int,
            s.largest_component_leaf_count as int,
        ) <= s.largest_five_component_counts@[0],
{
    let comps = choose|comps: Seq<Component>| #[trigger] components_listing(g, comps) && stats_from(g, comps, s);
    let labels = g.labels();
    lemma_small_sizes(labels, g.component_count() as int);
    lemma_leaves_within(g.adjacency(), labels, comps[0].number as int, labels.len() as int);
    assert(labels.subrange(0, labels.len() as int) =~= labels);
    assert(s.largest_five_component_counts@[0] == comps[0].num_vertices);
}

/// Computes the statistics of a graph whose components are known.
pub fn calculate_graph_stats(graph: &Graph) -> (r: WordLengthStatistics)
    requires
        graph.wf(),
        graph.has_components(),
        graph.vertices@.len() > 0,
    ensures
        stats_of(graph, &r),
{
    let ghost labels = graph.labels();
    let ghost adj = graph.adjacency();
    let n = graph.vertices.len();
    let comps = graph.components();
    let sizes = graph.component_sizes();
    let k = sizes.len();
    let mut ones: usize = 0;
    let mut twos: usize = 0;
    let mut threes: usize = 0;
    let mut c: usize = 0;
    while c < k
        invariant
            k == sizes@.len(),
            k == graph.component_count(),
            labels == graph.labels(),
            forall|d: int| 0 <= d < k ==> #[trigger] sizes@[d] == label_count(labels, d),
            c <= k,
            ones == sized_count(labels, c as int, 1),
            twos == sized_count(labels, c as int, 2),
            threes == sized_count(labels, c as int, 3),
            ones <= c && twos <= c && threes <= c,
        decreases k - c,
    {
        let size = sizes[c];
        if size == 1 {
            ones = ones + 1;
        } else if size == 2 {
            twos = twos + 1;
        } else if size == 3 {
            threes = threes + 1;
        }
        c = c + 1;
    }
    assert(labels[0] < graph.component_count());
    let top: usize = if comps.len() < 5 { comps.len() } else { 5 };
    let mut five: Vec<usize> = Vec::new();
    let mut i: usize = 0;
    while i < top
        invariant
            top <= comps@.len(),
            i <= top,
            five@ == comps@.subrange(0, i as int).map_values(|c: Component| c.num_vertices),
        decreases top - i,
    {
        let ghost before = five@;
        five.push(comps[i].num_vertices);
        assert(five@ =~= comps@.subrange(0, i + 1).map_values(|c: Component| c.num_vertices)) by {
            assert(comps@.subrange(0, i + 1) =~= comps@.subrange(0, i as int).push(comps@[i as int]));
        }
        i = i + 1;
    }
    let largest = comps[0].number;
    let mut leaves: usize = 0;
    i = 0;
    while i < n
        invariant
            graph.wf(),
            n == graph.vertices@.len(),
            labels == graph.labels(),
            adj == graph.adjacency(),
            i <= n,
            leaves == leaves_below(adj, labels, largest as int, i as int),
            leaves <= i,
        decreases n - i,
    {
        let v = &graph.vertices[i];
        assert(labels[i as int] == v.component && adj[i as int] == v.adjacency_list@);
        if v.component == largest && v.is_leaf() {
            leaves = leaves + 1;
        }
        i = i + 1;
    }
    let mut m: usize = 0;
    i = 1;
    while i < n
        invariant
            graph.wf(),
            n == graph.vertices@.len(),
            adj == graph.adjacency(),
            1 <= i <= n,
            m < i,
            forall|j: int| 0 <= j < i ==> (#[trigger] adj[j]).len() <= adj[m as int].len(),
            forall|j: int| m < j < i ==> (#[trigger] adj[j]).len() < adj[m as int].len(),
        decreases n - i,
    {
        assert(adj[i as int] == graph.vertices@[i as int].adjacency_list@);
        assert(adj[m as int] == graph.vertices@[m as int].adjacency_list@);
        if graph.vertices[i].degree() >= graph.vertices[m].degree() {
            m = i;
        }
        i = i + 1;
    }
    assert(adj[m as int] == graph.vertices@[m as int].adjacency_list@);
    let r = WordLengthStatistics {
        word_length: graph.word_length(),
        total_word_count: n,
        num_components: k,
        num_one_components: ones,
        num_two_components: twos,
        num_three_components: threes,
        largest_five_component_counts: five,
        largest_component_leaf_count: leaves,
        max_adjacents_count: graph.vertices[m].degree(),
        max_adjacents_word: graph.vertices[m].word.clone(),
        max_adjacencts_list: graph.neighbour_names(m),
    };
    assert(last_max_degree(adj, m as int));
    assert(stats_from(graph, comps@, &r));
    r
}

} // verus!
