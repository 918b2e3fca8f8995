use vstd::prelude::*;

use crate::components::{count_unmarked, lemma_mark_one, lemma_push_contains};
use crate::graph::Graph;
use crate::text::{join_words, joined, words_view};

verus! {

/// The first of `nbrs` that is not in `visited`.
pub open spec fn first_unvisited(nbrs: Seq<usize>, visited: Seq<usize>) -> Option<usize>
    decreases nbrs.len(),
{
    if nbrs.len() == 0 {
        None
    } else if !visited.contains(nbrs[0]) {
        Some(nbrs[0])
    } else {
        first_unvisited(nbrs.drop_first(), visited)
    }
}

/// `p` is the walk that starts at `p[0]` and always moves to the first
/// neighbour, in adjacency order, that it has not visited yet, stopping
/// where there is none.
pub open spec fn greedy_walk(adj: Seq<Seq<usize>>, p: Seq<usize>) -> bool {
    &&& p.len() >= 1
    &&& forall|t: int| 0 <= t < p.len() ==> (#[trigger] p[t]) < adj.len()
    &&& forall|t: int|
        1 <= t < p.len() ==> first_unvisited(adj[p[t - 1] as int], p.subrange(0, t)) == Some(
            #[trigger] p[t],
        )
    &&& first_unvisited(adj[p.last() as int], p) is None
}

/// The walk from vertex `i` visits more than one vertex, so a chain is written for it.
pub open spec fn chain_written(adj: Seq<Seq<usize>>, i: int) -> bool {
    exists|p: Seq<usize>| #[trigger] greedy_walk(adj, p) && p[0] == i && p.len() > 1
}

proof fn lemma_first_unvisited_found(nbrs: Seq<usize>, visited: Seq<usize>)
    ensures
        first_unvisited(nbrs, visited) matches Some(v) ==> nbrs.contains(v) && !visited.contains(v),
        first_unvisited(nbrs, visited) is None ==> forall|j: int|
            0 <= j < nbrs.len() ==> visited.contains(#[trigger] nbrs[j]),
    decreases nbrs.len(),
{
    if nbrs.len() > 0 {
        lemma_first_unvisited_found(nbrs.drop_first(), visited);
        if first_unvisited(nbrs, visited) is None {
            assert forall|j: int| 0 <= j < nbrs.len() implies visited.contains(#[trigger] nbrs[j]) by {
                if j > 0 {
                    assert(nbrs[j] == nbrs.drop_first()[j - 1]);
                }
            }
        }
        if let Some(v) = first_unvisited(nbrs, visited) {
            if visited.contains(nbrs[0]) {
                let j = choose|j: int| 0 <= j < nbrs.drop_first().len() && nbrs.drop_first()[j] == v;
                assert(nbrs[j + 1] == v);
            } else {
                assert(nbrs[0] == v);
            }
        }
    }
}

proof fn lemma_greedy_prefix(adj: Seq<Seq<usize>>, p: Seq<usize>, q: Seq<usize>, k: int)
    requires
        greedy_walk(adj, p),
        greedy_walk(adj, q),
        p[0] == q[0],
        1 <= k <= p.len(),
        k <= q.len(),
    ensures
        p.subrange(0, k) == q.subrange(0, k),
    decreases k,
{
    if k == 1 {
        assert(p.subrange(0, 1) =~= q.subrange(0, 1));
    } else {
        lemma_greedy_prefix(adj, p, q, k - 1);
        let j = k - 1;
        assert(p[j - 1] == p.subrange(0, j)[j - 1]);
        assert(q[j - 1] == q.subrange(0, j)[j - 1]);
        assert(first_unvisited(adj[p[j - 1] as int], p.subrange(0, j)) == Some(p[j]));
        assert(first_unvisited(adj[q[j - 1] as int], q.subrange(0, j)) == Some(q[j]));
        assert(p.subrange(0, k) =~= p.subrange(0, j).push(p[j]));
        assert(q.subrange(0, k) =~= q.subrange(0, j).push(q[j]));
    }
}

/// Two greedy walks from the same vertex are the same walk.
pub proof fn lemma_greedy_walk_unique(adj: Seq<Seq<usize>>, p: Seq<usize>, q: Seq<usize>)
    requires
        greedy_walk(adj, p),
        greedy_walk(adj, q),
        p[0] == q[0],
    ensures
        p == q,
{
    let m = if p.len() < q.len() { p.len() } else { q.len() };
    lemma_greedy_prefix(adj, p, q, m as int);
    if p.len() < q.len() {
        assert(p =~= p.subrange(0, m as int));
        assert(p.last() == q[m - 1]);
        assert(first_unvisited(adj[q[m - 1] as int], q.subrange(0, m as int)) == Some(q[m as int]));
        assert(false);
    } else if q.len() < p.len() {
        assert(q =~= q.subrange(0, m as int));
        assert(q.last() == p[m - 1]);
        assert(first_unvisited(adj[p[m - 1] as int], p.subrange(0, m as int)) == Some(p[m as int]));
        assert(false);
    } else {
        assert(p =~= p.subrange(0, m as int));
        assert(q =~= q.subrange(0, m as int));
    }
}

proof fn lemma_extend_walk(adj: Seq<Seq<usize>>, p: Seq<usize>, v: usize)
    requires
        p.len() >= 1,
        forall|t: int|
            1 <= t < p.len() ==> first_unvisited(adj[p[t - 1] as int], p.subrange(0, t)) == Some(
                #[trigger] p[t],
            ),
        first_unvisited(adj[p.last() as int], p) == Some(v),
    ensures
        forall|t: int|
            1 <= t < p.push(v).len() ==> first_unvisited(
                adj[p.push(v)[t - 1] as int],
                p.push(v).subrange(0, t),
            ) == Some(#[trigger] p.push(v)[t]),
{
    let q = p.push(v);
    assert forall|t: int| 1 <= t < q.len() implies first_unvisited(
        adj[q[t - 1] as int],
        q.subrange(0, t),
    ) == Some(#[trigger] q[t]) by {
        assert(q.subrange(0, t) =~= p.subrange(0, t));
        if t < p.len() {
            assert(q[t] == p[t]);
        } else {
            assert(p.subrange(0, t) =~= p);
        }
    }
}

fn next_step(graph: &Graph, current: usize, visited: &Vec<bool>, path: Ghost<Seq<usize>>) -> (r:
    Option<usize>)
    requires
        graph.wf(),
        current < graph.vertices@.len(),
        visited@.len() == graph.vertices@.len(),
        forall|x: int|
            0 <= x < graph.vertices@.len() ==> #[trigger] visited@[x] == path@.contains(x as usize),
    ensures
        r == first_unvisited(graph.adjacency()[current as int], path@),
{
    let ghost adj = graph.adjacency();
    let n = graph.vertices.len();
    let nbrs = &graph.vertices[current].adjacency_list;
    assert(nbrs@ == adj[current as int]);
    let m = nbrs.len();
    let mut j: usize = 0;
    assert(nbrs@.subrange(0, m as int) =~= nbrs@);
    while j < m
        invariant
            graph.wf(),
            adj == graph.adjacency(),
            n == adj.len(),
            current < n,
            nbrs@ == adj[current as int],
            m == nbrs@.len(),
            j <= m,
            visited@.len() == n,
            forall|x: int| 0 <= x < n ==> #[trigger] visited@[x] == path@.contains(x as usize),
            first_unvisited(nbrs@, path@) == first_unvisited(nbrs@.subrange(j as int, m as int), path@),
        decreases m - j,
    {
        let w = nbrs[j];
        assert(adj[current as int][j as int] == w);
        assert(nbrs@.subrange(j as int, m as int).drop_first() =~= nbrs@.subrange(j + 1, m as int));
        assert(nbrs@.subrange(j as int, m as int)[0] == w);
        if !visited[w] {
            return Some(w);
        }
        j = j + 1;
    }
    None
}

/// The walk from `start` that always moves to the first neighbour not yet
/// visited, without backtracking. It is a simple path, but in general not
/// the longest one.
pub fn calc_lp(graph: &Graph, start: usize) -> (path: Vec<usize>)
    requires
        graph.wf(),
        start < graph.vertices@.len(),
    ensures
        greedy_walk(graph.adjacency(), path@),
        path@[0] == start,
{
    let ghost adj = graph.adjacency();
    let n = graph.vertices.len();
    let mut visited: Vec<bool> = Vec::new();
    while visited.len() < n
        invariant
            visited@.len() <= n,
            forall|i: int| 0 <= i < visited@.len() ==> !(#[trigger] visited@[i]),
        decreases n - visited@.len(),
    {
        visited.push(false);
    }
    let mut path: Vec<usize> = Vec::new();
    proof {
        lemma_mark_one(visited@, start as int);
    }
    path.push(start);
    visited.set(start, true);
    assert(path@[0] == start);
    assert(path@ =~= Seq::<usize>::empty().push(start));
    assert forall|x: int| 0 <= x < n implies #[trigger] visited@[x] == path@.contains(x as usize) by {
        lemma_push_contains(Seq::<usize>::empty(), start, x as usize);
    }
    let mut current: usize = start;
    loop
        invariant
            graph.wf(),
            adj == graph.adjacency(),
            n == adj.len(),
            visited@.len() == n,
            path@.len() >= 1,
            path@[0] == start,
            current == path@.last(),
            forall|t: int| 0 <= t < path@.len() ==> (#[trigger] path@[t]) < n,
            forall|x: int| 0 <= x < n ==> #[trigger] visited@[x] == path@.contains(x as usize),
            forall|t: int|
                1 <= t < path@.len() ==> first_unvisited(
                    adj[path@[t - 1] as int],
                    path@.subrange(0, t),
                ) == Some(#[trigger] path@[t]),
        ensures
            first_unvisited(adj[path@.last() as int], path@) is None,
        decreases count_unmarked(visited@),
    {
        let next = next_step(graph, current, &visited, Ghost(path@));
        match next {
            None => {
                break ;
            },
            Some(v) => {
                proof {
                    let nbrs = adj[current as int];
                    lemma_first_unvisited_found(nbrs, path@);
                    let jj = choose|jj: int| 0 <= jj < nbrs.len() && nbrs[jj] == v;
                    assert(adj[current as int][jj] == v);
                    lemma_mark_one(visited@, v as int);
                }
                let ghost before = path@;
                let ghost old_visited = visited@;
                visited.set(v, true);
                path.push(v);
                proof {
                    lemma_extend_walk(adj, before, v);
                    assert forall|x: int| 0 <= x < n implies #[trigger] visited@[x] == path@.contains(
                        x as usize,
                    ) by {
                        lemma_push_contains(before, v, x as usize);
                    }
                }
                current = v;
            },
        }
    }
    path
}

/// The walk from the vertex of `word`, or `None` where `word` is not a
/// word of the graph.
pub fn calculate_longest_path_for_word(graph: &Graph, word: &str) -> (r: Option<Vec<usize>>)
    requires
        graph.wf(),
    ensures
        r is None <==> !graph.words().contains(word@),
        r matches Some(p) ==> greedy_walk(graph.adjacency(), p@) && graph.words()[p@[0] as int]
            == word@,
{
    match graph.get_index_for_word(word) {
        Some(i) => Some(calc_lp(graph, i)),
        None => None,
    }
}

/// The vertices whose words are not among `completed`, in arena order.
pub open spec fn still_to_do(g: &Graph, completed: Set<Seq<char>>, r: Seq<usize>) -> bool {
    &&& forall|t: int| 0 <= t < r.len() ==> (#[trigger] r[t]) < g.vertices@.len()
    &&& forall|s: int, t: int| 0 <= s < t < r.len() ==> r[s] < r[t]
    &&& forall|i: int|
        0 <= i < g.vertices@.len() ==> (r.contains(i as usize) <==> !completed.contains(
            #[trigger] g.words()[i],
        ))
}

/// The vertices still to search from: those whose word is not among the
/// words already done.
pub fn words_still_to_do(graph: &Graph, completed_already: &[String]) -> (r: Vec<usize>)
    requires
        graph.wf(),
    ensures
        still_to_do(graph, words_view(completed_already@).to_set(), r@),
{
    let ghost done_words = words_view(completed_already@).to_set();
    let n = graph.vertices.len();
    let mut done: Vec<bool> = Vec::new();
    while done.len() < n
        invariant
            done@.len() <= n,
            forall|i: int| 0 <= i < done@.len() ==> !(#[trigger] done@[i]),
        decreases n - done@.len(),
    {
        done.push(false);
    }
    let m = completed_already.len();
    let mut k: usize = 0;
    while k < m
        invariant
            graph.wf(),
            n == graph.vertices@.len(),
            m == completed_already@.len(),
            done_words == words_view(completed_already@).to_set(),
            k <= m,
            done@.len() == n,
            forall|i: int|
                0 <= i < n ==> (#[trigger] done@[i] <==> words_view(completed_already@).subrange(
                    0,
                    k as int,
                ).contains(graph.words()[i])),
        decreases m - k,
    {
        let ghost prefix = words_view(completed_already@).subrange(0, k as int);
        let ghost next_prefix = words_view(completed_already@).subrange(0, k + 1);
        assert(next_prefix =~= prefix.push(completed_already@[k as int]@));
        let found = graph.get_index_for_word(completed_already[k].as_str());
        match found {
            Some(i) => {
                done.set(i, true);
            },
            None => {},
        }
        proof {
            assert forall|i: int| 0 <= i < n implies (#[trigger] done@[i] <==> next_prefix.contains(
                graph.words()[i],
            )) by {
                let w = graph.words()[i];
                if next_prefix.contains(w) {
                    let s = choose|s: int| 0 <= s < next_prefix.len() && next_prefix[s] == w;
                    if s < k {
                        assert(prefix[s] == w);
                    }
                }
                if prefix.contains(w) {
                    let s = choose|s: int| 0 <= s < prefix.len() && prefix[s] == w;
                    assert(next_prefix[s] == w);
                }
                if w == completed_already@[k as int]@ {
                    assert(next_prefix[k as int] == w);
                }
            }
        }
        k = k + 1;
    }
    assert(words_view(completed_already@).subrange(0, m as int) =~= words_view(completed_already@));
    let mut out: Vec<usize> = Vec::new();
    let mut i: usize = 0;
    while i < n
        invariant
            graph.wf(),
            n == graph.vertices@.len(),
            done@.len() == n,
            done_words == words_view(completed_already@).to_set(),
            forall|x: int|
                0 <= x < n ==> (#[trigger] done@[x] <==> words_view(completed_already@).contains(
                    graph.words()[x],
                )),
            i <= n,
            forall|t: int| 0 <= t < out@.len() ==> (#[trigger] out@[t]) < i,
            forall|s: int, t: int| 0 <= s < t < out@.len() ==> out@[s] < out@[t],
            forall|x: int|
                0 <= x < i ==> (out@.contains(x as usize) <==> !done_words.contains(
                    #[trigger] graph.words()[x],
                )),
        decreases n - i,
    {
        let ghost before = out@;
        if !done[i] {
            out.push(i);
        }
        proof {
            assert forall|x: int| 0 <= x < i + 1 implies (out@.contains(x as usize) <==> !done_words.contains(
                #[trigger] graph.words()[x],
            )) by {
                if out@.contains(x as usize) {
                    let t = choose|t: int| 0 <= t < out@.len() && out@[t] == x as usize;
                    if t < before.len() {
                        assert(before[t] == x as usize);
                    }
                }
                if x < i && before.contains(x as usize) {
                    let t = choose|t: int| 0 <= t < before.len() && before[t] == x as usize;
                    assert(out@[t] == x as usize);
                }
                if x == i && !done@[x] {
                    assert(out@[out@.len() - 1] == x as usize);
                }
            }
        }
        i = i + 1;
    }
    out
}

/// The content of the chain file of a walk: its words separated by
/// spaces, or `None` for a walk of one vertex, which is not written.
pub fn chain_text(graph: &Graph, path: &Vec<usize>) -> (r: Option<String>)
    requires
        graph.wf(),
        forall|t: int| 0 <= t < path@.len() ==> (#[trigger] path@[t]) < graph.vertices@.len(),
    ensures
        r is Some <==> path@.len() > 1,
        r matches Some(s) ==> s@ == joined(
            path@.map_values(|v: usize| graph.words()[v as int]),
        ),
{
    if path.len() <= 1 {
        return None;
    }
    let mut names: Vec<String> = Vec::new();
    let mut t: usize = 0;
    while t < path.len()
        invariant
            graph.wf(),
            forall|s: int| 0 <= s < path@.len() ==> (#[trigger] path@[s]) < graph.vertices@.len(),
            t <= path@.len(),
            names@.len() == t,
            forall|s: int| 0 <= s < t ==> (#[trigger] names@[s])@ == graph.words()[path@[s] as int],
        decreases path@.len() - t,
    {
        names.push(graph.vertices[path[t]].word.clone());
        t = t + 1;
    }
    assert(words_view(names@) =~= path@.map_values(|v: usize| graph.words()[v as int]));
    Some(join_words(&names))
}

/// The words whose chain files a run writes, given the words already done.
pub open spec fn written_by_run(g: &Graph, done: Set<Seq<char>>) -> Set<Seq<char>> {
    Set::new(
        |w: Seq<char>|
            exists|i: int|
                0 <= i < g.vertices@.len() && #[trigger] g.words()[i] == w && !done.contains(w)
                    && chain_written(g.adjacency(), i),
    )
}

/// A second run over the output of a first one writes no file: every word
/// that still has no chain file after the first run is one whose walk has a
/// single vertex.
pub proof fn lemma_second_run_writes_nothing(g: &Graph, done: Set<Seq<char>>)
    requires
        g.wf(),
    ensures
        forall|i: int|
            0 <= i < g.vertices@.len() && !done.union(written_by_run(g, done)).contains(
                #[trigger] g.words()[i],
            ) ==> !chain_written(g.adjacency(), i),
{
    assert forall|i: int|
        0 <= i < g.vertices@.len() && !done.union(written_by_run(g, done)).contains(
            #[trigger] g.words()[i],
        ) implies !chain_written(g.adjacency(), i) by {
        if chain_written(g.adjacency(), i) {
            assert(written_by_run(g, done).contains(g.words()[i]));
        }
    }
}

/// Whether the walk found from a vertex gives a chain file, stated over the
/// walk itself: a walk returned by `calc_lp` is written exactly when
/// `chain_written` holds of its start.
pub proof fn lemma_written_iff_long(adj: Seq<Seq<usize>>, p: Seq<usize>)
    requires
        greedy_walk(adj, p),
    ensures
        chain_written(adj, p[0] as int) <==> p.len() > 1,
{
    if chain_written(adj, p[0] as int) {
        let q = choose|q: Seq<usize>| #[trigger] greedy_walk(adj, q) && q[0] == p[0] && q.len() > 1;
        lemma_greedy_walk_unique(adj, p, q);
    }
}

} // verus!
