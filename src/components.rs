use vstd::prelude::*;

use crate::graph::{components_labelled, has_edge, is_walk, reachable, Graph};

verus! {

/// Number of unmarked entries.
pub open spec fn count_unmarked(s: Seq<bool>) -> nat
    decreases s.len(),
{
    if s.len() == 0 {
        0
    } else {
        count_unmarked(s.drop_last()) + if s.last() { 0nat } else { 1nat }
    }
}

pub proof fn lemma_mark_one(s: Seq<bool>, i: int)
    requires
        0 <= i < s.len(),
        !s[i],
    ensures
        count_unmarked(s.update(i, true)) + 1 == count_unmarked(s),
    decreases s.len(),
{
    let u = s.update(i, true);
    if i < s.len() - 1 {
        assert(u.drop_last() =~= s.drop_last().update(i, true));
        lemma_mark_one(s.drop_last(), i);
    } else {
        assert(u.drop_last() =~= s.drop_last());
    }
}

/// Every neighbour of a marked vertex is marked.
pub open spec fn closed_under_edges(adj: Seq<Seq<usize>>, seen: Seq<bool>) -> bool {
    forall|u: int, t: int|
        0 <= u < adj.len() && 0 <= t < adj[u].len() && #[trigger] seen[u] ==> seen[#[trigger] adj[u][t] as int]
}

/// Every neighbour of `u` is marked.
pub open spec fn neighbours_marked(adj: Seq<Seq<usize>>, seen: Seq<bool>, u: int) -> bool {
    forall|t: int| 0 <= t < adj[u].len() ==> seen[#[trigger] adj[u][t] as int]
}

proof fn lemma_reach_self(adj: Seq<Seq<usize>>, a: int)
    requires
        0 <= a < adj.len(),
    ensures
        reachable(adj, a, a),
{
    let p = seq![a];
    assert(is_walk(adj, p));
}

proof fn lemma_reach_step(adj: Seq<Seq<usize>>, a: int, x: int, j: int)
    requires
        reachable(adj, a, x),
        0 <= x < adj.len(),
        0 <= j < adj[x].len(),
        adj[x][j] < adj.len(),
    ensures
        reachable(adj, a, adj[x][j] as int),
{
    let p = choose|p: Seq<int>| #[trigger] is_walk(adj, p) && p[0] == a && p.last() == x;
    let y = adj[x][j] as int;
    let q = p.push(y);
    assert(adj[x][j] == y as usize);
    assert(adj[x].contains(y as usize));
    assert forall|t: int| 0 <= t < q.len() - 1 implies has_edge(adj, #[trigger] q[t], q[t + 1]) by {
        if t < p.len() - 1 {
            assert(q[t] == p[t] && q[t + 1] == p[t + 1]);
        } else {
            assert(q[t] == x);
        }
    }
    assert(is_walk(adj, q));
    assert(q[0] == a && q.last() == y);
}

pub proof fn lemma_push_contains(s: Seq<usize>, v: usize, z: usize)
    ensures
        s.push(v).contains(z) == (s.contains(z) || z == v),
{
    if s.contains(z) {
        let k = choose|k: int| 0 <= k < s.len() && s[k] == z;
        assert(s.push(v)[k] == z);
    }
    if z == v {
        assert(s.push(v)[s.len() as int] == v);
    }
    if s.push(v).contains(z) {
        let k = choose|k: int| 0 <= k < s.push(v).len() && s.push(v)[k] == z;
        if k < s.len() {
            assert(s[k] == z);
        }
    }
}

proof fn lemma_pop_contains(s: Seq<usize>, z: usize)
    requires
        s.len() > 0,
    ensures
        s.contains(z) == (s.drop_last().contains(z) || z == s.last()),
{
    assert(s =~= s.drop_last().push(s.last()));
    lemma_push_contains(s.drop_last(), s.last(), z);
}

/// Number of entries of `labels` equal to `c`.
pub open spec fn label_count(labels: Seq<usize>, c: int) -> nat
    decreases labels.len(),
{
    if labels.len() == 0 {
        0
    } else {
        label_count(labels.drop_last(), c) + if labels.last() as int == c { 1nat } else { 0nat }
    }
}

/// The sum of the entries of `s`.
pub open spec fn sum_of(s: Seq<usize>) -> int
    decreases s.len(),
{
    if s.len() == 0 {
        0
    } else {
        sum_of(s.drop_last()) + s.last()
    }
}

proof fn lemma_label_count_bound(labels: Seq<usize>, c: int)
    ensures
        label_count(labels, c) <= labels.len(),
    decreases labels.len(),
{
    if labels.len() > 0 {
        lemma_label_count_bound(labels.drop_last(), c);
    }
}

/// `comps` lists every component of `g` once, with its size, in the order
/// of `precedes`.
pub open spec fn components_listing(g: &Graph, comps: Seq<Component>) -> bool {
    &&& comps.len() == g.component_count()
    &&& forall|i: int|
        0 <= i < comps.len() ==> (#[trigger] comps[i]).number < g.component_count()
            && comps[i].num_vertices == label_count(g.labels(), comps[i].number as int)
    &&& forall|i: int, j: int|
        0 <= i < comps.len() && 0 <= j < comps.len() && i != j ==> comps[i].number != comps[j].number
    &&& forall|i: int, j: int| 0 <= i < j < comps.len() ==> precedes(comps[i], comps[j])
}

/// A component: its number and how many vertices it holds.
#[derive(Clone, Copy, Debug)]
pub struct Component {
    pub number: usize,
    pub num_vertices: usize,
}

/// Order of `components()`: larger first, then lower number first.
pub open spec fn precedes(a: Component, b: Component) -> bool {
    a.num_vertices > b.num_vertices || (a.num_vertices == b.num_vertices && a.number < b.number)
}

fn comes_before(a: &Component, b: &Component) -> (r: bool)
    ensures
        r == precedes(*a, *b),
{
    a.num_vertices > b.num_vertices || (a.num_vertices == b.num_vertices && a.number < b.number)
}

impl Graph {
    /// Collects every vertex reachable from `start` that is not yet marked,
    /// marking each. The marked vertices before the call must have all
    /// their neighbours marked. Explores with an explicit stack.
    fn dfs(&self, seen: &mut Vec<bool>, start: usize) -> (found: Vec<usize>)
        requires
            self.wf(),
            old(seen)@.len() == self.vertices@.len(),
            start < self.vertices@.len(),
            !old(seen)@[start as int],
            closed_under_edges(self.adjacency(), old(seen)@),
        ensures
            final(seen)@.len() == self.vertices@.len(),
            final(seen)@[start as int],
            closed_under_edges(self.adjacency(), final(seen)@),
            forall|x: int|
                0 <= x < self.vertices@.len() ==> #[trigger] final(seen)@[x] == (old(seen)@[x]
                    || found@.contains(x as usize)),
            forall|t: int|
                0 <= t < found@.len() ==> {
                    &&& (#[trigger] found@[t]) < self.vertices@.len()
                    &&& !old(seen)@[found@[t] as int]
                    &&& reachable(self.adjacency(), start as int, found@[t] as int)
                },
    {
        let ghost adj = self.adjacency();
        let ghost before = seen@;
        let n = self.vertices.len();
        let mut found: Vec<usize> = Vec::new();
        let mut stack: Vec<usize> = Vec::new();
        proof {
            lemma_mark_one(seen@, start as int);
            lemma_reach_self(adj, start as int);
            lemma_push_contains(found@, start, start);
        }
        seen.set(start, true);
        found.push(start);
        stack.push(start);
        assert(stack@[0] == start);
        assert(found@ =~= Seq::<usize>::empty().push(start));
        assert(seen@ == before.update(start as int, true));
        assert forall|x: int| 0 <= x < n implies #[trigger] seen@[x] == (before[x]
            || found@.contains(x as usize)) by {
            lemma_push_contains(Seq::<usize>::empty(), start, x as usize);
        }
        while stack.len() > 0
            invariant
                self.wf(),
                adj == self.adjacency(),
                n == self.vertices@.len(),
                n == adj.len(),
                seen@.len() == n,
                before.len() == n,
                closed_under_edges(adj, before),
                seen@[start as int],
                forall|x: int|
                    0 <= x < n ==> #[trigger] seen@[x] == (before[x] || found@.contains(x as usize)),
                forall|t: int|
                    0 <= t < found@.len() ==> {
                        &&& (#[trigger] found@[t]) < n
                        &&& !before[found@[t] as int]
                        &&& reachable(adj, start as int, found@[t] as int)
                    },
                forall|t: int|
                    0 <= t < stack@.len() ==> (#[trigger] stack@[t]) < n && seen@[stack@[t] as int]
                        && !before[stack@[t] as int],
                forall|u: int|
                    0 <= u < n && #[trigger] seen@[u] && !before[u] ==> stack@.contains(u as usize)
                        || neighbours_marked(adj, seen@, u),
            decreases count_unmarked(seen@), stack@.len(),
        {
            let ghost stack_before_pop = stack@;
            let x = stack.pop().unwrap();
            let ghost stack_after_pop = stack@;
            let ghost unmarked_at_pop = count_unmarked(seen@);
            proof {
                assert(x == stack_before_pop.last());
                assert(stack_after_pop =~= stack_before_pop.drop_last());
                assert forall|u: int|
                    0 <= u < n && #[trigger] seen@[u] && !before[u] && u != x implies stack@.contains(
                    u as usize,
                ) || neighbours_marked(adj, seen@, u) by {
                    lemma_pop_contains(stack_before_pop, u as usize);
                }
                assert(found@.contains(x)) by {
                    assert(seen@[x as int]);
                }
            }
            let len = self.vertices[x].adjacency_list.len();
            let mut j: usize = 0;
            while j < len
                invariant
                    self.wf(),
                    adj == self.adjacency(),
                    n == self.vertices@.len(),
                    n == adj.len(),
                    x < n,
                    len == adj[x as int].len(),
                    j <= len,
                    seen@.len() == n,
                    before.len() == n,
                    closed_under_edges(adj, before),
                    found@.contains(x),
                    start < n,
                    seen@[start as int],
                    forall|y: int|
                        0 <= y < n ==> #[trigger] seen@[y] == (before[y] || found@.contains(
                            y as usize,
                        )),
                    forall|t: int|
                        0 <= t < found@.len() ==> {
                            &&& (#[trigger] found@[t]) < n
                            &&& !before[found@[t] as int]
                            &&& reachable(adj, start as int, found@[t] as int)
                        },
                    forall|t: int|
                        0 <= t < stack@.len() ==> (#[trigger] stack@[t]) < n && seen@[stack@[t] as int]
                            && !before[stack@[t] as int],
                    forall|u: int|
                        0 <= u < n && #[trigger] seen@[u] && !before[u] && u != x ==> stack@.contains(
                            u as usize,
                        ) || neighbours_marked(adj, seen@, u),
                    forall|t: int| 0 <= t < j ==> seen@[#[trigger] adj[x as int][t] as int],
                    count_unmarked(seen@) < unmarked_at_pop || (count_unmarked(seen@)
                        == unmarked_at_pop && stack@ == stack_after_pop),
                decreases len - j,
            {
                let y = self.vertices[x].adjacency_list[j];
                assert(y == adj[x as int][j as int]);
                if !seen[y] {
                    let ghost old_found = found@;
                    let ghost old_stack = stack@;
                    let ghost old_seen = seen@;
                    proof {
                        let k = choose|k: int| 0 <= k < found@.len() && found@[k] == x;
                        assert(reachable(adj, start as int, x as int));
                        lemma_reach_step(adj, start as int, x as int, j as int);
                        lemma_mark_one(seen@, y as int);
                    }
                    seen.set(y, true);
                    found.push(y);
                    stack.push(y);
                    proof {
                        lemma_push_contains(old_found, y, x);
                        assert forall|z: int| 0 <= z < n implies #[trigger] seen@[z] == (before[z]
                            || found@.contains(z as usize)) by {
                            lemma_push_contains(old_found, y, z as usize);
                            assert(old_seen[z] == (before[z] || old_found.contains(z as usize)));
                        }
                        assert forall|u: int|
                            0 <= u < n && #[trigger] seen@[u] && !before[u] && u != x implies stack@.contains(
                            u as usize,
                        ) || neighbours_marked(adj, seen@, u) by {
                            lemma_push_contains(old_stack, y, u as usize);
                            if u != y {
                                assert(old_seen[u]);
                            }
                        }
                    }
                }
                j = j + 1;
            }
            assert(neighbours_marked(adj, seen@, x as int));
        }
        assert forall|u: int, t: int|
            0 <= u < adj.len() && 0 <= t < adj[u].len() && #[trigger] seen@[u] implies seen@[#[trigger] adj[u][t] as int] by {
            if !before[u] {
                if stack@.contains(u as usize) {
                    let k = choose|k: int| 0 <= k < stack@.len() && stack@[k] == u as usize;
                    assert(false);
                }
                assert(neighbours_marked(adj, seen@, u));
            } else {
                assert(before[adj[u][t] as int]);
            }
        }
        found
    }

    fn set_component(&mut self, v: usize, c: usize)
        requires
            old(self).wf(),
            v < old(self).vertices@.len(),
        ensures
            final(self).wf(),
            final(self).words() == old(self).words(),
            final(self).adjacency() == old(self).adjacency(),
            final(self).labels() == old(self).labels().update(v as int, c),
            final(self).component_roots() == old(self).component_roots(),
    {
        let ghost words = self.words();
        let ghost adj = self.adjacency();
        self.vertices[v].component = c;
        assert(self.words() =~= words);
        assert(self.adjacency() =~= adj);
        assert(self.labels() =~= old(self).labels().update(v as int, c));
    }

    /// Assigns every vertex a component number: vertices are taken in arena
    /// order, and each one not yet placed starts a new component made of
    /// everything reachable from it that is not yet placed. Numbers are
    /// given from 0 upwards.
    pub fn calculate_components(&mut self)
        requires
            old(self).wf(),
        ensures
            final(self).wf(),
            final(self).words() == old(self).words(),
            final(self).adjacency() == old(self).adjacency(),
            final(self).has_components(),
    {
        let ghost adj = self.adjacency();
        let ghost words = self.words();
        let n = self.vertices.len();
        let mut seen: Vec<bool> = Vec::new();
        while seen.len() < n
            invariant
                seen@.len() <= n,
                forall|i: int| 0 <= i < seen@.len() ==> !(#[trigger] seen@[i]),
            decreases n - seen@.len(),
        {
            seen.push(false);
        }
        let mut next: usize = 0;
        let ghost mut roots: Seq<int> = Seq::empty();
        let mut idx: usize = 0;
        while idx < n
            invariant
                self.wf(),
                adj == self.adjacency(),
                words == self.words(),
                n == self.vertices@.len(),
                seen@.len() == n,
                idx <= n,
                next <= idx,
                next == roots.len(),
                closed_under_edges(adj, seen@),
                forall|i: int| 0 <= i < idx ==> #[trigger] seen@[i],
                forall|i: int|
                    0 <= i < n && #[trigger] seen@[i] ==> self.labels()[i] < next && reachable(
                        adj,
                        roots[self.labels()[i] as int],
                        i,
                    ),
                forall|c: int|
                    0 <= c < next ==> 0 <= #[trigger] roots[c] < n && seen@[roots[c]]
                        && self.labels()[roots[c]] == c,
                forall|i: int, t: int|
                    0 <= i < n && 0 <= t < adj[i].len() && #[trigger] seen@[i] ==> self.labels()[#[trigger] adj[i][t] as int]
                        <= self.labels()[i],
            decreases n - idx,
        {
            if !seen[idx] {
                let ghost seen_before = seen@;
                let ghost labels_before = self.labels();
                let found = self.dfs(&mut seen, idx);
                let mut t: usize = 0;
                #[verifier::loop_isolation(false)]
                while t < found.len()
                    invariant
                        self.wf(),
                        adj == self.adjacency(),
                        words == self.words(),
                        n == self.vertices@.len(),
                        t <= found@.len(),
                        forall|k: int|
                            0 <= k < found@.len() ==> (#[trigger] found@[k]) < n
                                && !seen_before[found@[k] as int],
                        forall|i: int|
                            0 <= i < n ==> #[trigger] self.labels()[i] == if found@.subrange(
                                0,
                                t as int,
                            ).contains(i as usize) {
                                next
                            } else {
                                labels_before[i]
                            },
                    decreases found@.len() - t,
                {
                    let v = found[t];
                    let ghost labels_mid = self.labels();
                    self.set_component(v, next);
                    proof {
                        assert forall|i: int| 0 <= i < n implies #[trigger] self.labels()[i] == if found@.subrange(
                            0,
                            t + 1,
                        ).contains(i as usize) {
                            next
                        } else {
                            labels_before[i]
                        } by {
                            assert(found@.subrange(0, t + 1) =~= found@.subrange(0, t as int).push(v));
                            lemma_push_contains(found@.subrange(0, t as int), v, i as usize);
                        }
                    }
                    t = t + 1;
                }
                proof {
                    assert(found@.subrange(0, found@.len() as int) =~= found@);
                    lemma_reach_self(adj, idx as int);
                    roots = roots.push(idx as int);
                    assert forall|i: int|
                        0 <= i < n && #[trigger] seen@[i] implies self.labels()[i] < next + 1
                            && reachable(adj, roots[self.labels()[i] as int], i) by {
                        if !seen_before[i] {
                            let k = choose|k: int| 0 <= k < found@.len() && found@[k] == i as usize;
                            assert(reachable(adj, idx as int, found@[k] as int));
                        } else {
                            if found@.contains(i as usize) {
                                let k = choose|k: int| 0 <= k < found@.len() && found@[k] == i as usize;
                                assert(!seen_before[found@[k] as int]);
                            }
                        }
                    }
                    assert forall|c: int| 0 <= c < next + 1 implies 0 <= #[trigger] roots[c] < n
                        && seen@[roots[c]] && self.labels()[roots[c]] == c by {
                        if c < next {
                            let r = roots[c];
                            if found@.contains(r as usize) {
                                let k = choose|k: int| 0 <= k < found@.len() && found@[k] == r as usize;
                                assert(!seen_before[found@[k] as int]);
                            }
                        } else {
                            assert(seen@[idx as int]);
                            assert(!seen_before[idx as int]);
                        }
                    }
                    assert forall|i: int, t: int|
                        0 <= i < n && 0 <= t < adj[i].len() && #[trigger] seen@[i] implies self.labels()[#[trigger] adj[i][t] as int]
                        <= self.labels()[i] by {
                        let w = adj[i][t] as int;
                        if seen_before[i] {
                            assert(seen_before[w]);
                            if found@.contains(i as usize) {
                                let k = choose|k: int| 0 <= k < found@.len() && found@[k] == i as usize;
                                assert(!seen_before[found@[k] as int]);
                            }
                            if found@.contains(w as usize) {
                                let k = choose|k: int| 0 <= k < found@.len() && found@[k] == w as usize;
                                assert(!seen_before[found@[k] as int]);
                            }
                        } else {
                            assert(seen@[w]);
                            if seen_before[w] && found@.contains(w as usize) {
                                let k = choose|k: int| 0 <= k < found@.len() && found@[k] == w as usize;
                                assert(!seen_before[found@[k] as int]);
                            }
                        }
                    }
                }
                next = next + 1;
            }
            idx = idx + 1;
        }
        let ghost labels = self.labels();
        self.roots = Ghost(roots);
        self.num_components = next;
        assert(self.adjacency() =~= adj);
        assert(self.words() =~= words);
        assert(self.labels() =~= labels);
        assert forall|i: int| 0 <= i < n implies #[trigger] self.labels()[i] < roots.len() && reachable(
            adj,
            roots[self.labels()[i] as int],
            i,
        ) by {
            assert(seen@[i]);
        }
        assert forall|i: int, t: int|
            0 <= i < adj.len() && 0 <= t < adj[i].len() implies self.labels()[#[trigger] adj[i][t] as int]
            <= self.labels()[i] by {
            assert(seen@[i]);
        }
    }

    /// The number of vertices of each component, indexed by component number.
    pub fn component_sizes(&self) -> (r: Vec<usize>)
        requires
            self.wf(),
            self.has_components(),
        ensures
            r@.len() == self.component_count(),
            forall|c: int| 0 <= c < r@.len() ==> #[trigger] r@[c] == label_count(self.labels(), c),
    {
        let k = self.num_components;
        let n = self.vertices.len();
        let ghost labels = self.labels();
        let mut sizes: Vec<usize> = Vec::new();
        while sizes.len() < k
            invariant
                sizes@.len() <= k,
                forall|c: int| 0 <= c < sizes@.len() ==> #[trigger] sizes@[c] == 0,
            decreases k - sizes@.len(),
        {
            sizes.push(0);
        }
        let mut i: usize = 0;
        while i < n
            invariant
                self.wf(),
                self.has_components(),
                labels == self.labels(),
                k == self.component_count(),
                n == labels.len(),
                i <= n,
                sizes@.len() == k,
                forall|c: int|
                    0 <= c < k ==> #[trigger] sizes@[c] == label_count(labels.subrange(0, i as int), c),
            decreases n - i,
        {
            let c = self.vertices[i].component;
            assert(c == labels[i as int]);
            assert(labels.subrange(0, i + 1).drop_last() =~= labels.subrange(0, i as int));
            proof {
                lemma_label_count_bound(labels.subrange(0, i as int), c as int);
            }
            let s = sizes[c];
            sizes.set(c, s + 1);
            i = i + 1;
        }
        assert(labels.subrange(0, n as int) =~= labels);
        sizes
    }

    /// All components, largest first; components of equal size come in
    /// increasing order of number.
    pub fn components(&self) -> (r: Vec<Component>)
        requires
            self.wf(),
            self.has_components(),
        ensures
            components_listing(self, r@),
    {
        let sizes = self.component_sizes();
        let k = sizes.len();
        let ghost labels = self.labels();
        let mut v: Vec<Component> = Vec::new();
        while v.len() < k
            invariant
                k == sizes@.len(),
                v@.len() <= k,
                forall|i: int|
                    0 <= i < v@.len() ==> (#[trigger] v@[i]).number == i && v@[i].num_vertices
                        == sizes@[i],
            decreases k - v@.len(),
        {
            let c = v.len();
            v.push(Component { number: c, num_vertices: sizes[c] });
        }
        let mut i: usize = 0;
        while i < k
            invariant
                k == sizes@.len(),
                k == self.component_count(),
                labels == self.labels(),
                forall|c: int| 0 <= c < k ==> #[trigger] sizes@[c] == label_count(labels, c),
                v@.len() == k,
                i <= k,
                forall|a: int|
                    0 <= a < k ==> (#[trigger] v@[a]).number < k && v@[a].num_vertices
                        == sizes@[v@[a].number as int],
                forall|a: int, b: int|
                    0 <= a < k && 0 <= b < k && a != b ==> v@[a].number != v@[b].number,
                forall|a: int, b: int| 0 <= a < b < i ==> precedes(v@[a], v@[b]),
                forall|a: int, b: int| 0 <= a < i && i <= b < k ==> precedes(v@[a], v@[b]),
            decreases k - i,
        {
            let mut best: usize = i;
            let mut j: usize = i + 1;
            while j < k
                invariant
                    v@.len() == k,
                    i < k,
                    i <= best < j,
                    j <= k,
                    forall|a: int, b: int|
                        0 <= a < k && 0 <= b < k && a != b ==> v@[a].number != v@[b].number,
                    forall|m: int| i <= m < j && m != best ==> precedes(v@[best as int], #[trigger] v@[m]),
                decreases k - j,
            {
                if comes_before(&v[j], &v[best]) {
                    best = j;
                }
                j = j + 1;
            }
            let a = v[i];
            let b = v[best];
            let ghost before = v@;
            v.set(i, b);
            v.set(best, a);
            proof {
                assert forall|x: int, y: int|
                    0 <= x < k && 0 <= y < k && x != y implies v@[x].number != v@[y].number by {
                    let px = if x == i { best as int } else if x == best { i as int } else { x };
                    let py = if y == i { best as int } else if y == best { i as int } else { y };
                    assert(v@[x] == before[px]);
                    assert(v@[y] == before[py]);
                }
                assert forall|x: int| 0 <= x < k implies (#[trigger] v@[x]).number < k
                    && v@[x].num_vertices == sizes@[v@[x].number as int] by {
                    let px = if x == i { best as int } else if x == best { i as int } else { x };
                    assert(v@[x] == before[px]);
                }
                assert forall|x: int, y: int| 0 <= x < y < i + 1 implies precedes(v@[x], v@[y]) by {
                    if y == i {
                        assert(precedes(before[x], before[best as int]));
                    }
                }
                assert forall|x: int, y: int|
                    0 <= x < i + 1 && i + 1 <= y < k implies precedes(v@[x], v@[y]) by {
                    let py = if y == best { i as int } else { y };
                    assert(v@[y] == before[py]);
                    if x == i {
                        if py != best {
                            assert(precedes(before[best as int], before[py]));
                        }
                    }
                }
            }
            i = i + 1;
        }
        v
    }
}

/// Every edge has its reverse.
pub open spec fn symmetric(adj: Seq<Seq<usize>>) -> bool {
    forall|u: int, t: int|
        0 <= u < adj.len() && 0 <= t < adj[u].len() ==> (#[trigger] adj[u][t]) < adj.len()
            && adj[adj[u][t] as int].contains(u as usize)
}

proof fn lemma_walk_never_rises(adj: Seq<Seq<usize>>, labels: Seq<usize>, roots: Seq<int>, p: Seq<int>)
    requires
        adj.len() <= usize::MAX,
        components_labelled(adj, labels, roots),
        is_walk(adj, p),
    ensures
        labels[p.last()] <= labels[p[0]],
    decreases p.len(),
{
    if p.len() > 1 {
        let q = p.drop_last();
        assert(is_walk(adj, q)) by {
            assert forall|t: int| 0 <= t < q.len() - 1 implies has_edge(adj, #[trigger] q[t], q[t + 1]) by {
                assert(has_edge(adj, p[t], p[t + 1]));
            }
        }
        lemma_walk_never_rises(adj, labels, roots, q);
        let u = p[p.len() - 2];
        let v = p.last();
        assert(q.last() == u);
        assert(q[0] == p[0]);
        assert(has_edge(adj, u, v));
        let j = choose|j: int| 0 <= j < adj[u].len() && adj[u][j] == v as usize;
        assert(adj[u][j] as int == v);
        assert(labels[adj[u][j] as int] <= labels[u]);
    }
}

proof fn lemma_reverse_walk(adj: Seq<Seq<usize>>, p: Seq<int>)
    requires
        adj.len() <= usize::MAX,
        symmetric(adj),
        is_walk(adj, p),
    ensures
        is_walk(adj, p.reverse()),
        p.reverse()[0] == p.last(),
        p.reverse().last() == p[0],
{
    let r = p.reverse();
    assert forall|t: int| 0 <= t < r.len() - 1 implies has_edge(adj, #[trigger] r[t], r[t + 1]) by {
        let k = p.len() - 2 - t;
        assert(r[t] == p[k + 1]);
        assert(r[t + 1] == p[k]);
        assert(has_edge(adj, p[k], p[k + 1]));
        let j = choose|j: int| 0 <= j < adj[p[k]].len() && adj[p[k]][j] == p[k + 1] as usize;
        assert(adj[p[k]][j] as int == p[k + 1]);
        assert(adj[adj[p[k]][j] as int].contains(p[k] as usize));
        assert(adj[p[k + 1]].contains(p[k] as usize));
    }
    assert forall|t: int| 0 <= t < r.len() implies 0 <= #[trigger] r[t] < adj.len() by {
        assert(r[t] == p[p.len() - 1 - t]);
    }
}

proof fn lemma_join_walks(adj: Seq<Seq<usize>>, p: Seq<int>, q: Seq<int>)
    requires
        is_walk(adj, p),
        is_walk(adj, q),
        p.last() == q[0],
    ensures
        is_walk(adj, p + q.drop_first()),
        (p + q.drop_first())[0] == p[0],
        (p + q.drop_first()).last() == q.last(),
{
    let w = p + q.drop_first();
    assert forall|t: int| 0 <= t < w.len() implies 0 <= #[trigger] w[t] < adj.len() by {
        if t >= p.len() {
            assert(w[t] == q[t - p.len() + 1]);
        }
    }
    assert forall|t: int| 0 <= t < w.len() - 1 implies has_edge(adj, #[trigger] w[t], w[t + 1]) by {
        if t < p.len() - 1 {
            assert(w[t] == p[t] && w[t + 1] == p[t + 1]);
        } else {
            let k = t - p.len() + 1;
            assert(w[t] == q[k]);
            assert(w[t + 1] == q[k + 1]);
        }
    }
    if q.len() > 1 {
        assert(w.last() == q.last());
    }
}

/// On a graph whose edges all have their reverse, two vertices get the same
/// component number exactly when one can be reached from the other.
pub proof fn lemma_same_component_iff_reachable(g: &Graph, a: int, b: int)
    requires
        g.wf(),
        g.has_components(),
        symmetric(g.adjacency()),
        g.vertices@.len() <= usize::MAX,
        0 <= a < g.vertices@.len(),
        0 <= b < g.vertices@.len(),
    ensures
        g.labels()[a] == g.labels()[b] <==> reachable(g.adjacency(), a, b),
{
    let adj = g.adjacency();
    let labels = g.labels();
    let roots = g.component_roots();
    if reachable(adj, a, b) {
        let p = choose|p: Seq<int>| #[trigger] is_walk(adj, p) && p[0] == a && p.last() == b;
        lemma_walk_never_rises(adj, labels, roots, p);
        lemma_reverse_walk(adj, p);
        lemma_walk_never_rises(adj, labels, roots, p.reverse());
    }
    if labels[a] == labels[b] {
        let r = roots[labels[a] as int];
        assert(reachable(adj, r, a));
        assert(reachable(adj, r, b));
        let p = choose|p: Seq<int>| #[trigger] is_walk(adj, p) && p[0] == r && p.last() == a;
        let q = choose|q: Seq<int>| #[trigger] is_walk(adj, q) && q[0] == r && q.last() == b;
        lemma_reverse_walk(adj, p);
        lemma_join_walks(adj, p.reverse(), q);
        assert(is_walk(adj, p.reverse() + q.drop_first()));
    }
}

/// Every component number appears in a listing of the components.
pub proof fn lemma_listing_covers(g: &Graph, comps: Seq<Component>, d: int)
    requires
        comps.len() == g.component_count(),
        forall|i: int| 0 <= i < comps.len() ==> (#[trigger] comps[i]).number < g.component_count(),
        forall|i: int, j: int|
            0 <= i < comps.len() && 0 <= j < comps.len() && i != j ==> comps[i].number != comps[j].number,
        0 <= d < g.component_count(),
    ensures
        exists|j: int| 0 <= j < comps.len() && comps[j].number == d as usize,
{
    let numbers = comps.map_values(|x: Component| x.number as int);
    if !(exists|j: int| 0 <= j < comps.len() && comps[j].number == d as usize) {
        let others = Set::new(|x: int| 0 <= x < comps.len() && x != d);
        assert(numbers.to_set().subset_of(others)) by {
            assert forall|x: int| numbers.to_set().contains(x) implies others.contains(x) by {
                let j = choose|j: int| 0 <= j < numbers.len() && numbers[j] == x;
            }
        }
        assert(numbers.no_duplicates()) by {
            assert forall|i: int, j: int|
                0 <= i < numbers.len() && 0 <= j < numbers.len() && i != j implies numbers[i]
                != numbers[j] by {}
        }
        numbers.unique_seq_to_set();
        vstd::set_lib::lemma_int_range(0, comps.len() as int);
        assert(others =~= vstd::set_lib::set_int_range(0, comps.len() as int).remove(d));
        vstd::set_lib::lemma_len_subset(numbers.to_set(), others);
    }
}

/// Number of entries of `labels` that lie in `s`.
pub open spec fn count_in(labels: Seq<usize>, s: Set<int>) -> nat
    decreases labels.len(),
{
    if labels.len() == 0 {
        0
    } else {
        count_in(labels.drop_last(), s) + if s.contains(labels.last() as int) { 1nat } else { 0nat }
    }
}

proof fn lemma_count_in_insert(labels: Seq<usize>, s: Set<int>, c: int)
    requires
        !s.contains(c),
    ensures
        count_in(labels, s.insert(c)) == count_in(labels, s) + label_count(labels, c),
    decreases labels.len(),
{
    if labels.len() > 0 {
        lemma_count_in_insert(labels.drop_last(), s, c);
    }
}

proof fn lemma_count_in_all(labels: Seq<usize>, s: Set<int>)
    requires
        forall|i: int| 0 <= i < labels.len() ==> s.contains(#[trigger] labels[i] as int),
    ensures
        count_in(labels, s) == labels.len(),
    decreases labels.len(),
{
    if labels.len() > 0 {
        assert(s.contains(labels[labels.len() - 1] as int));
        lemma_count_in_all(labels.drop_last(), s);
    }
}

/// The numbers of the first `m` listed components.
pub open spec fn listed_numbers(comps: Seq<Component>, m: int) -> Set<int> {
    Set::new(|x: int| exists|j: int| 0 <= j < m && #[trigger] comps[j].number as int == x)
}

proof fn lemma_listing_prefix_sum(g: &Graph, comps: Seq<Component>, m: int)
    requires
        components_listing(g, comps),
        0 <= m <= comps.len(),
    ensures
        sum_of(comps.map_values(|c: Component| c.num_vertices).subrange(0, m)) == count_in(
            g.labels(),
            listed_numbers(comps, m),
        ),
    decreases m,
{
    let sizes = comps.map_values(|c: Component| c.num_vertices);
    if m == 0 {
        assert(listed_numbers(comps, 0) =~= Set::<int>::empty());
        lemma_count_in_empty(g.labels());
    } else {
        lemma_listing_prefix_sum(g, comps, m - 1);
        assert(sizes.subrange(0, m).drop_last() =~= sizes.subrange(0, m - 1));
        let c = comps[m - 1].number as int;
        assert(!listed_numbers(comps, m - 1).contains(c)) by {
            if listed_numbers(comps, m - 1).contains(c) {
                let j = choose|j: int| 0 <= j < m - 1 && #[trigger] comps[j].number as int == c;
                assert(comps[j].number != comps[m - 1].number);
            }
        }
        assert(listed_numbers(comps, m) =~= listed_numbers(comps, m - 1).insert(c)) by {
            assert forall|x: int| listed_numbers(comps, m).contains(x) implies listed_numbers(
                comps,
                m - 1,
            ).insert(c).contains(x) by {
                let j = choose|j: int| 0 <= j < m && #[trigger] comps[j].number as int == x;
                if j < m - 1 {
                    assert(listed_numbers(comps, m - 1).contains(x));
                }
            }
            assert forall|x: int| listed_numbers(comps, m - 1).insert(c).contains(x) implies listed_numbers(
                comps,
                m,
            ).contains(x) by {
                if x != c {
                    let j = choose|j: int| 0 <= j < m - 1 && #[trigger] comps[j].number as int == x;
                } else {
                    assert(comps[m - 1].number as int == x);
                }
            }
        }
        lemma_count_in_insert(g.labels(), listed_numbers(comps, m - 1), c);
    }
}

proof fn lemma_count_in_empty(labels: Seq<usize>)
    ensures
        count_in(labels, Set::<int>::empty()) == 0,
    decreases labels.len(),
{
    if labels.len() > 0 {
        lemma_count_in_empty(labels.drop_last());
    }
}

/// The vertex counts of all components add up to the number of vertices.
pub proof fn lemma_component_counts_sum(g: &Graph, comps: Seq<Component>)
    requires
        g.wf(),
        g.has_components(),
        components_listing(g, comps),
    ensures
        sum_of(comps.map_values(|c: Component| c.num_vertices)) == g.vertices@.len(),
{
    let labels = g.labels();
    let k = comps.len() as int;
    lemma_listing_prefix_sum(g, comps, k);
    let sizes = comps.map_values(|c: Component| c.num_vertices);
    assert(sizes.subrange(0, k) =~= sizes);
    assert forall|i: int| 0 <= i < labels.len() implies listed_numbers(comps, k).contains(
        #[trigger] labels[i] as int,
    ) by {
        lemma_listing_covers(g, comps, labels[i] as int);
        let j = choose|j: int| 0 <= j < comps.len() && comps[j].number == labels[i];
        assert(comps[j].number as int == labels[i] as int);
    }
    lemma_count_in_all(labels, listed_numbers(comps, k));
}

} // verus!
