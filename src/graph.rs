//! A directed graph over numbered vertices and its breadth-first walk.
use vstd::prelude::*;
use std::collections::VecDeque;

verus! {

/// A directed graph; vertex `v` is `v` and `edges[v]` lists its
/// out-neighbours.
pub struct Graph {
    pub edges: Vec<Vec<usize>>,
}

impl Graph {
    /// Every edge ends at a vertex of the graph.
    pub open spec fn wf(&self) -> bool {
        forall|v: int, k: int|
            0 <= v < self.edges@.len() && 0 <= k < self.edges@[v]@.len() ==> (#[trigger] self.edges@[v]@[k])
                < self.edges@.len()
    }

    pub open spec fn vertex_count_spec(&self) -> int {
        self.edges@.len() as int
    }

    pub open spec fn has_edge(&self, a: int, b: int) -> bool {
        0 <= a < self.edges@.len() && self.edges@[a]@.contains(b as usize)
    }

    /// A vertex that no edge enters.
    pub open spec fn is_root(&self, v: int) -> bool {
        0 <= v < self.edges@.len() && forall|a: int| 0 <= a < self.edges@.len() ==> !#[trigger] self.has_edge(a, v)
    }

    /// The roots among the first `n` vertices, in increasing order.
    pub open spec fn root_list(&self, n: int) -> Seq<usize>
        decreases n,
    {
        if n <= 0 {
            Seq::empty()
        } else if self.is_root(n - 1) {
            self.root_list(n - 1).push((n - 1) as usize)
        } else {
            self.root_list(n - 1)
        }
    }

    /// `v` is reached from a root within `n` edges.
    pub open spec fn reach_within(&self, v: int, n: nat) -> bool
        decreases n,
    {
        self.is_root(v) || (n > 0 && exists|u: int|
            0 <= u < self.edges@.len() && #[trigger] self.has_edge(u, v) && self.reach_within(
                u,
                (n - 1) as nat,
            ))
    }

    /// `v` is reached from a root along edges.
    pub open spec fn reachable(&self, v: int) -> bool {
        exists|n: nat| #[trigger] self.reach_within(v, n)
    }

    /// A graph of `n` vertices and no edges.
    pub fn new(n: usize) -> (r: Graph)
        ensures
            r.wf(),
            r.vertex_count_spec() == n,
            forall|v: int| 0 <= v < n ==> (#[trigger] r.edges@[v])@.len() == 0,
    {
        let mut edges: Vec<Vec<usize>> = Vec::new();
        let mut i: usize = 0;
        while i < n
            invariant
                i <= n,
                edges@.len() == i,
                forall|v: int| 0 <= v < i ==> (#[trigger] edges@[v])@.len() == 0,
            decreases n - i,
        {
            edges.push(Vec::new());
            i = i + 1;
        }
        Graph { edges }
    }

    pub fn vertex_count(&self) -> (r: usize)
        ensures
            r == self.vertex_count_spec(),
    {
        self.edges.len()
    }

    /// Adds the edge from `a` to `b`.
    pub fn add_edge(&mut self, a: usize, b: usize)
        requires
            old(self).wf(),
            a < old(self).vertex_count_spec(),
            b < old(self).vertex_count_spec(),
        ensures
            final(self).wf(),
            final(self).vertex_count_spec() == old(self).vertex_count_spec(),
            final(self).edges@[a as int]@ == old(self).edges@[a as int]@.push(b),
            forall|v: int| 0 <= v < old(self).vertex_count_spec() && v != a ==> (#[trigger] final(self).edges@[v])@
                == old(self).edges@[v]@,
    {
        let ghost before = self.edges@;
        let mut out: Vec<usize> = Vec::new();
        std::mem::swap(&mut out, &mut self.edges[a]);
        out.push(b);
        self.edges.set(a, out);
        proof {
            assert forall|v: int, k: int|
                0 <= v < self.edges@.len() && 0 <= k < self.edges@[v]@.len() implies (#[trigger] self.edges@[v]@[k])
                    < self.edges@.len() by {
                if v != a {
                    assert(self.edges@[v] == before[v]);
                } else if k < before[v]@.len() {
                    assert(self.edges@[v]@[k] == before[v]@[k]);
                }
            }
        }
    }

    /// The out-neighbours of `v`.
    pub fn out_neighbors(&self, v: usize) -> (r: &Vec<usize>)
        requires
            v < self.vertex_count_spec(),
        ensures
            r@ == self.edges@[v as int]@,
    {
        &self.edges[v]
    }

    /// Whether some edge enters `v`.
    fn has_inbound(&self, v: usize) -> (r: bool)
        ensures
            r == exists|a: int| 0 <= a < self.edges@.len() && #[trigger] self.has_edge(a, v as int),
    {
        let mut a: usize = 0;
        while a < self.edges.len()
            invariant
                a <= self.edges@.len(),
                forall|x: int| 0 <= x < a ==> !#[trigger] self.has_edge(x, v as int),
            decreases self.edges@.len() - a,
        {
            if contains(&self.edges[a], v) {
                assert(self.has_edge(a as int, v as int));
                return true;
            }
            a = a + 1;
        }
        false
    }

    /// The vertices that no edge enters, in increasing order.
    pub fn roots(&self) -> (r: Vec<usize>)
        ensures
            forall|k: int| 0 <= k < r@.len() ==> self.is_root(#[trigger] r@[k] as int),
            forall|v: int| 0 <= v < self.edges@.len() && self.is_root(v) ==> r@.contains(v as usize),
            r@ == self.root_list(self.edges@.len() as int),
    {
        let mut r: Vec<usize> = Vec::new();
        let mut v: usize = 0;
        while v < self.edges.len()
            invariant
                v <= self.edges@.len(),
                forall|k: int| 0 <= k < r@.len() ==> self.is_root(#[trigger] r@[k] as int),
                forall|x: int| 0 <= x < v && self.is_root(x) ==> r@.contains(x as usize),
                r@ == self.root_list(v as int),
            decreases self.edges@.len() - v,
        {
            if !self.has_inbound(v) {
                let ghost before = r@;
                r.push(v);
                proof {
                    assert(r@[before.len() as int] == v);
                    assert forall|x: int| 0 <= x < v + 1 && self.is_root(x) implies r@.contains(x as usize) by {
                        if x < v {
                            let w = choose|w: int| 0 <= w < before.len() && before[w] == x as usize;
                            assert(r@[w] == before[w]);
                        }
                    }
                }
            } else {
                proof {
                    let a = choose|a: int| 0 <= a < self.edges@.len() && #[trigger] self.has_edge(a, v as int);
                    assert(!self.is_root(v as int));
                }
            }
            v = v + 1;
        }
        r
    }
}

proof fn lemma_push_contains(s: Seq<usize>, x: usize, y: usize)
    ensures
        s.push(x).contains(y) <==> (s.contains(y) || y == x),
{
    if s.contains(y) {
        let i = choose|i: int| 0 <= i < s.len() && s[i] == y;
        assert(s.push(x)[i] == y);
    }
    if y == x {
        assert(s.push(x)[s.len() as int] == x);
    }
    if s.push(x).contains(y) {
        let i = choose|i: int| 0 <= i < s.len() + 1 && s.push(x)[i] == y;
        if i < s.len() {
            assert(s[i] == y);
        }
    }
}

proof fn lemma_split_last(s: Seq<usize>, y: usize)
    requires
        s.len() > 0,
    ensures
        s.contains(y) <==> (s.drop_last().contains(y) || s.last() == y),
{
    if s.contains(y) {
        let i = choose|i: int| 0 <= i < s.len() && s[i] == y;
        if i < s.len() - 1 {
            assert(s.drop_last()[i] == y);
        }
    }
    if s.drop_last().contains(y) {
        let i = choose|i: int| 0 <= i < s.len() - 1 && s.drop_last()[i] == y;
        assert(s[i] == y);
    }
}

proof fn lemma_split_first(s: Seq<usize>, y: usize)
    requires
        s.len() > 0,
    ensures
        s.contains(y) <==> (s.subrange(1, s.len() as int).contains(y) || s[0] == y),
{
    let t = s.subrange(1, s.len() as int);
    if s.contains(y) {
        let i = choose|i: int| 0 <= i < s.len() && s[i] == y;
        if i > 0 {
            assert(t[i - 1] == y);
        }
    }
    if t.contains(y) {
        let i = choose|i: int| 0 <= i < t.len() && t[i] == y;
        assert(s[i + 1] == y);
    }
}

/// A set that covers the reachable vertices holds each vertex reached
/// within `n` edges.
pub proof fn lemma_covered(g: &Graph, seen: Seq<usize>, v: int, n: nat)
    requires
        covers_reachable(g, seen),
        g.reach_within(v, n),
        g.edges@.len() <= usize::MAX,
    ensures
        seen.contains(v as usize),
    decreases n,
{
    if !g.is_root(v) {
        let u = choose|u: int|
            0 <= u < g.edges@.len() && #[trigger] g.has_edge(u, v) && g.reach_within(u, (n - 1) as nat);
        lemma_covered(g, seen, u, (n - 1) as nat);
        let k = choose|k: int| 0 <= k < g.edges@[u]@.len() && g.edges@[u]@[k] == v as usize;
        let uu = u as usize;
        assert(uu as int == u);
        assert(seen.contains(uu));
        assert(0 <= k < g.edges@[uu as int]@.len());
        assert(seen.contains(g.edges@[uu as int]@[k]));
    }
}

/// Reaching a vertex depends only on the vertex count and the edges.
pub proof fn lemma_reach_same_edges(g1: &Graph, g2: &Graph, v: int, n: nat)
    requires
        g1.edges@.len() == g2.edges@.len(),
        forall|a: int, b: int| g1.has_edge(a, b) == g2.has_edge(a, b),
        g1.reach_within(v, n),
    ensures
        g2.reach_within(v, n),
    decreases n,
{
    if g1.is_root(v) {
        assert forall|a: int| 0 <= a < g2.edges@.len() implies !#[trigger] g2.has_edge(a, v) by {
            assert(!g1.has_edge(a, v));
        }
    } else {
        let u = choose|u: int|
            0 <= u < g1.edges@.len() && #[trigger] g1.has_edge(u, v) && g1.reach_within(u, (n - 1) as nat);
        lemma_reach_same_edges(g1, g2, u, (n - 1) as nat);
        assert(g2.has_edge(u, v));
    }
}

/// A finished walk has yielded exactly the vertices reachable from a root.
/// So two graphs with the same vertices and edges, however they were built,
/// yield the same set when walked to the end.
pub proof fn lemma_full_walks_agree(g1: &Graph, g2: &Graph, s1: Seq<usize>, s2: Seq<usize>)
    requires
        g1.edges@.len() == g2.edges@.len(),
        g1.edges@.len() <= usize::MAX,
        forall|a: int, b: int| g1.has_edge(a, b) == g2.has_edge(a, b),
        covers_reachable(g1, s1),
        covers_reachable(g2, s2),
        forall|k: int| 0 <= k < s1.len() ==> g1.reachable(#[trigger] s1[k] as int),
        forall|k: int| 0 <= k < s2.len() ==> g2.reachable(#[trigger] s2[k] as int),
    ensures
        s1.to_set() == s2.to_set(),
{
    assert forall|v: usize| s1.to_set().contains(v) <==> s2.to_set().contains(v) by {
        if s1.contains(v) {
            let k = choose|k: int| 0 <= k < s1.len() && s1[k] == v;
            assert(g1.reachable(s1[k] as int));
            let n = choose|n: nat| g1.reach_within(v as int, n);
            lemma_reach_same_edges(g1, g2, v as int, n);
            lemma_covered(g2, s2, v as int, n);
        }
        if s2.contains(v) {
            let k = choose|k: int| 0 <= k < s2.len() && s2[k] == v;
            assert(g2.reachable(s2[k] as int));
            let n = choose|n: nat| g2.reach_within(v as int, n);
            assert forall|a: int, b: int| g2.has_edge(a, b) == g1.has_edge(a, b) by {
                assert(g1.has_edge(a, b) == g2.has_edge(a, b));
            }
            lemma_reach_same_edges(g2, g1, v as int, n);
            lemma_covered(g1, s1, v as int, n);
        }
    }
    assert(s1.to_set() =~= s2.to_set());
}

/// An out-neighbour of a reachable vertex is reachable.
proof fn lemma_reach_step(g: &Graph, u: int, k: int)
    requires
        0 <= u < g.edges@.len(),
        0 <= k < g.edges@[u]@.len(),
        g.reachable(u),
    ensures
        g.reachable(g.edges@[u]@[k] as int),
{
    let n = choose|n: nat| g.reach_within(u, n);
    let v = g.edges@[u]@[k];
    assert(g.edges@[u]@[k] == v);
    assert(g.has_edge(u, v as int));
    assert(g.reach_within(v as int, n + 1));
}

/// Whether `v` occurs in `s`.
pub fn contains(s: &Vec<usize>, v: usize) -> (r: bool)
    ensures
        r == s@.contains(v),
{
    let mut i: usize = 0;
    while i < s.len()
        invariant
            i <= s@.len(),
            forall|j: int| 0 <= j < i ==> s@[j] != v,
        decreases s@.len() - i,
    {
        if s[i] == v {
            assert(s@[i as int] == v);
            return true;
        }
        i = i + 1;
    }
    false
}

/// `seen` holds every root of `g` and every out-neighbour of each vertex it
/// holds, and so every vertex reachable from a root.
pub open spec fn covers_reachable(g: &Graph, seen: Seq<usize>) -> bool {
    &&& forall|v: int| 0 <= v < g.edges@.len() && #[trigger] g.is_root(v) ==> seen.contains(v as usize)
    &&& forall|u: usize, k: int|
        seen.contains(u) && u < g.edges@.len() && 0 <= k < g.edges@[u as int]@.len() ==> seen.contains(
            #[trigger] g.edges@[u as int]@[k],
        )
}

/// A breadth-first walk over a graph, root by root; each call of `next`
/// yields one vertex not yielded before.
pub struct Bfs<'a> {
    /// Vertices whose out-neighbours are still to be looked at, oldest first.
    pub queue: VecDeque<usize>,
    /// The vertex whose out-neighbours are being looked at.
    pub current_ptr: Option<usize>,
    /// The vertices yielded so far, in order.
    pub visited_stack: Vec<usize>,
    /// Roots not yet started from, taken from the end.
    pub roots_stack: Vec<usize>,
    pub iterable: &'a Graph,
}

impl<'a> Bfs<'a> {
    /// Every vertex the walk holds lies in the graph and is reachable from a
    /// root; every root is visited or still to come; every visited vertex is
    /// done with, queued or current.
    pub open spec fn wf(&self) -> bool {
        &&& self.iterable.wf()
        &&& forall|k: int| 0 <= k < self.queue@.len() ==> self.iterable.reachable(#[trigger] self.queue@[k] as int)
        &&& forall|k: int| 0 <= k < self.roots_stack@.len() ==> self.iterable.is_root(#[trigger] self.roots_stack@[k] as int)
        &&& forall|k: int| 0 <= k < self.visited_stack@.len() ==> self.iterable.reachable(#[trigger] self.visited_stack@[k] as int)
        &&& (self.current_ptr matches Some(c) ==> self.iterable.reachable(c as int))
        &&& forall|k: int| 0 <= k < self.queue@.len() ==> (#[trigger] self.queue@[k]) < self.iterable.edges@.len()
        &&& forall|k: int| 0 <= k < self.roots_stack@.len() ==> (#[trigger] self.roots_stack@[k]) < self.iterable.edges@.len()
        &&& (self.current_ptr matches Some(c) ==> c < self.iterable.edges@.len())
        &&& (self.current_ptr is None ==> self.roots_stack@.len() == 0 && self.queue@.len() == 0
            && self.visited_stack@.len() == 0)
        &&& forall|v: int|
            0 <= v < self.iterable.edges@.len() && #[trigger] self.iterable.is_root(v) ==> self.visited_stack@.contains(
                v as usize,
            ) || self.roots_stack@.contains(v as usize) || self.current_ptr == Some(v as usize)
        &&& forall|u: usize|
            #[trigger] self.visited_stack@.contains(u) ==> self.done_with(u) || self.queue@.contains(u)
                || self.current_ptr == Some(u)
    }

    /// Every out-neighbour of `u` has been visited.
    pub open spec fn done_with(&self, u: usize) -> bool {
        forall|k: int|
            0 <= k < self.iterable.edges@[u as int]@.len() ==> self.visited_stack@.contains(
                #[trigger] self.iterable.edges@[u as int]@[k],
            )
    }

    /// The vertices yielded so far, in order.
    pub open spec fn visited(&self) -> Seq<usize> {
        self.visited_stack@
    }

    pub open spec fn graph(&self) -> &'a Graph {
        self.iterable
    }

    /// The walk is over: it never started, or nothing is queued, no root is
    /// left and the current vertex is visited and done with.
    pub open spec fn finished(&self) -> bool {
        match self.current_ptr {
            None => true,
            Some(c) => self.queue@.len() == 0 && self.roots_stack@.len() == 0
                && self.visited_stack@.contains(c) && self.done_with(c),
        }
    }

    /// Starts a walk at the last root of `graph`.
    pub fn new(graph: &'a Graph) -> (r: Bfs<'a>)
        requires
            graph.wf(),
        ensures
            r.wf(),
            r.graph() == graph,
            r.visited().len() == 0,
            r.queue@.len() == 0,
            ({
                let roots = graph.root_list(graph.edges@.len() as int);
                if roots.len() == 0 {
                    r.current_ptr is None && r.roots_stack@.len() == 0
                } else {
                    r.current_ptr == Some(roots.last()) && r.roots_stack@ == roots.drop_last()
                }
            }),
    {
        let mut roots_stack = graph.roots();
        let ghost all = roots_stack@;
        let current_ptr = roots_stack.pop();
        let r = Bfs {
            queue: VecDeque::new(),
            current_ptr,
            visited_stack: Vec::new(),
            roots_stack,
            iterable: graph,
        };
        proof {
            assert forall|v: int|
                0 <= v < graph.edges@.len() && #[trigger] graph.is_root(v) implies r.visited_stack@.contains(
                    v as usize,
                ) || r.roots_stack@.contains(v as usize) || r.current_ptr == Some(v as usize) by {
                lemma_split_last(all, v as usize);
            }
            assert forall|k: int| 0 <= k < r.roots_stack@.len() implies graph.is_root(
                #[trigger] r.roots_stack@[k] as int,
            ) by {
                assert(r.roots_stack@[k] == all[k]);
            }
            if let Some(c) = r.current_ptr {
                assert(graph.reach_within(c as int, 0));
            }
        }
        r
    }

    /// The next vertex of the walk, or `None` once it is over. A vertex
    /// yielded is in the graph and was not yielded before; when the walk is
    /// over, it has yielded every vertex reachable from a root.
    pub fn next(&mut self) -> (r: Option<usize>)
        requires
            old(self).wf(),
        ensures
            final(self).wf(),
            final(self).graph() == old(self).graph(),
            old(self).finished() ==> r is None && *final(self) == *old(self),
            final(self).roots_stack@ == old(self).roots_stack@.subrange(
                0,
                final(self).roots_stack@.len() as int,
            ),
            match r {
                None => final(self).visited() == old(self).visited() && final(self).finished()
                    && covers_reachable(final(self).graph(), final(self).visited()),
                Some(v) => {
                    &&& v < old(self).graph().edges@.len()
                    &&& old(self).graph().reachable(v as int)
                    &&& !old(self).visited().contains(v)
                    &&& final(self).visited() == old(self).visited().push(v)
                },
            },
    {
        loop
            invariant
                self.wf(),
                self.iterable == old(self).iterable,
                self.visited_stack@ == old(self).visited_stack@,
                old(self).finished() ==> *self == *old(self),
                self.roots_stack@.len() <= old(self).roots_stack@.len(),
                self.roots_stack@ == old(self).roots_stack@.subrange(0, self.roots_stack@.len() as int),
            decreases self.queue@.len() + self.roots_stack@.len(),
        {
            let current = match self.current_ptr {
                None => {
                    proof {
                        assert forall|v: int|
                            0 <= v < self.iterable.edges@.len() && #[trigger] self.iterable.is_root(
                                v,
                            ) implies self.visited_stack@.contains(v as usize) by {
                            assert(!self.visited_stack@.contains(v as usize));
                            assert(!self.roots_stack@.contains(v as usize));
                        }
                    }
                    return None;
                },
                Some(c) => c,
            };
            if !contains(&self.visited_stack, current) {
                let ghost before = *self;
                self.visited_stack.push(current);
                proof {
                    self.lemma_visit_keeps(before, current, false);
                }
                return Some(current);
            }
            let graph = self.iterable;
            let ns = graph.out_neighbors(current);
            let ghost q0 = self.queue@;
            let ghost r0 = self.roots_stack@;
            let mut k: usize = 0;
            while k < ns.len()
                invariant
                    self.wf(),
                    self.queue@ == q0,
                    self.roots_stack@ == r0,
                    self.iterable == graph,
                    self.current_ptr == Some(current),
                    self.visited_stack@.contains(current),
                    current < graph.edges@.len(),
                    ns@ == graph.edges@[current as int]@,
                    self.visited_stack@ == old(self).visited_stack@,
                    self.iterable == old(self).iterable,
                    old(self).finished() ==> *self == *old(self),
                    self.roots_stack@.len() <= old(self).roots_stack@.len(),
                    self.roots_stack@ == old(self).roots_stack@.subrange(0, self.roots_stack@.len() as int),
                    forall|j: int| 0 <= j < k ==> self.visited_stack@.contains(#[trigger] ns@[j]),
                decreases ns@.len() - k,
            {
                let n = ns[k];
                proof {
                    if old(self).finished() {
                        assert(self.visited_stack@.contains(graph.edges@[current as int]@[k as int]));
                    }
                }
                if !contains(&self.visited_stack, n) {
                    proof {
                        lemma_reach_step(graph, current as int, k as int);
                    }
                    let ghost before = *self;
                    self.visited_stack.push(n);
                    self.queue.push_back(n);
                    proof {
                        self.lemma_visit_keeps(before, n, true);
                    }
                    return Some(n);
                }
                k = k + 1;
            }
            proof {
                assert(self.done_with(current));
            }
            let ghost before = *self;
            if self.queue.len() == 0 {
                if self.roots_stack.len() == 0 {
                    proof {
                        self.lemma_end_covers(current);
                    }
                    return None;
                }
                match self.roots_stack.pop() {
                    Some(next_root) => {
                        self.current_ptr = Some(next_root);
                        proof {
                            assert(self.roots_stack@ =~= old(self).roots_stack@.subrange(
                                0,
                                self.roots_stack@.len() as int,
                            ));
                            self.lemma_advance_keeps(before, current);
                        }
                    },
                    None => {
                        return None;
                    },
                }
            } else {
                self.current_ptr = self.queue.pop_front();
                proof {
                    self.lemma_advance_keeps(before, current);
                }
            }
        }
    }

    /// Visiting `x` (and perhaps queueing it) keeps the walk well formed.
    proof fn lemma_visit_keeps(&self, before: Bfs<'a>, x: usize, queued: bool)
        requires
            before.wf(),
            x < before.iterable.edges@.len(),
            self.iterable == before.iterable,
            self.current_ptr == before.current_ptr,
            self.current_ptr is Some,
            self.roots_stack@ == before.roots_stack@,
            self.visited_stack@ == before.visited_stack@.push(x),
            queued ==> self.queue@ == before.queue@.push(x),
            !queued ==> self.queue@ == before.queue@ && self.current_ptr == Some(x),
            before.iterable.reachable(x as int),
        ensures
            self.wf(),
    {
        let g = self.iterable;
        assert forall|k: int| 0 <= k < self.queue@.len() implies g.reachable(#[trigger] self.queue@[k] as int) by {
            if k < before.queue@.len() {
                assert(self.queue@[k] == before.queue@[k]);
            }
        }
        assert forall|k: int| 0 <= k < self.visited_stack@.len() implies g.reachable(
            #[trigger] self.visited_stack@[k] as int,
        ) by {
            if k < before.visited_stack@.len() {
                assert(self.visited_stack@[k] == before.visited_stack@[k]);
            }
        }
        assert forall|k: int| 0 <= k < self.queue@.len() implies (#[trigger] self.queue@[k]) < g.edges@.len() by {
            if queued && k < before.queue@.len() {
                assert(self.queue@[k] == before.queue@[k]);
            }
        }
        assert forall|v: int|
            0 <= v < g.edges@.len() && #[trigger] g.is_root(v) implies self.visited_stack@.contains(
                v as usize,
            ) || self.roots_stack@.contains(v as usize) || self.current_ptr == Some(v as usize) by {
            lemma_push_contains(before.visited_stack@, x, v as usize);
        }
        assert forall|u: usize| #[trigger] self.visited_stack@.contains(u) implies self.done_with(u)
            || self.queue@.contains(u) || self.current_ptr == Some(u) by {
            lemma_push_contains(before.visited_stack@, x, u);
            lemma_push_contains(before.queue@, x, u);
            if u != x {
                if before.done_with(u) {
                    assert forall|k: int| 0 <= k < g.edges@[u as int]@.len() implies self.visited_stack@.contains(
                        #[trigger] g.edges@[u as int]@[k],
                    ) by {
                        lemma_push_contains(before.visited_stack@, x, g.edges@[u as int]@[k]);
                    }
                }
            }
        }
    }

    /// Moving on from a `current` that is visited and done with, to the next
    /// root or the head of the queue, keeps the walk well formed.
    proof fn lemma_advance_keeps(&self, before: Bfs<'a>, current: usize)
        requires
            before.wf(),
            before.current_ptr == Some(current),
            before.visited_stack@.contains(current),
            before.done_with(current),
            self.iterable == before.iterable,
            self.visited_stack@ == before.visited_stack@,
            self.current_ptr is Some,
            (before.queue@.len() == 0 && before.roots_stack@.len() > 0 && self.queue@ == before.queue@
                && self.roots_stack@ == before.roots_stack@.drop_last() && self.current_ptr == Some(
                before.roots_stack@.last(),
            )) || (before.queue@.len() > 0 && self.roots_stack@ == before.roots_stack@
                && self.queue@ == before.queue@.subrange(1, before.queue@.len() as int)
                && self.current_ptr == Some(before.queue@[0])),
        ensures
            self.wf(),
    {
        let g = self.iterable;
        assert forall|k: int| 0 <= k < self.queue@.len() implies g.reachable(#[trigger] self.queue@[k] as int) by {
            if before.queue@.len() > 0 {
                assert(self.queue@[k] == before.queue@[k + 1]);
            }
        }
        assert forall|k: int| 0 <= k < self.roots_stack@.len() implies g.is_root(
            #[trigger] self.roots_stack@[k] as int,
        ) by {
            assert(self.roots_stack@[k] == before.roots_stack@[k]);
        }
        if before.queue@.len() == 0 {
            let c = before.roots_stack@.last();
            assert(before.roots_stack@[before.roots_stack@.len() - 1] == c);
            assert(g.reach_within(c as int, 0));
        } else {
            assert(before.queue@[0] == before.queue@[0]);
        }
        assert forall|k: int| 0 <= k < self.queue@.len() implies (#[trigger] self.queue@[k]) < g.edges@.len() by {
            if before.queue@.len() > 0 {
                assert(self.queue@[k] == before.queue@[k + 1]);
            }
        }
        assert forall|k: int| 0 <= k < self.roots_stack@.len() implies (#[trigger] self.roots_stack@[k])
            < g.edges@.len() by {
            assert(self.roots_stack@[k] == before.roots_stack@[k]);
        }
        assert forall|v: int|
            0 <= v < g.edges@.len() && #[trigger] g.is_root(v) implies self.visited_stack@.contains(
                v as usize,
            ) || self.roots_stack@.contains(v as usize) || self.current_ptr == Some(v as usize) by {
            if before.roots_stack@.len() > 0 {
                lemma_split_last(before.roots_stack@, v as usize);
            }
        }
        assert forall|u: usize| #[trigger] self.visited_stack@.contains(u) implies self.done_with(u)
            || self.queue@.contains(u) || self.current_ptr == Some(u) by {
            assert(before.done_with(u) == self.done_with(u));
            if before.queue@.len() > 0 {
                lemma_split_first(before.queue@, u);
            }
        }
    }

    /// A walk with an empty queue and no roots left, whose current vertex is
    /// visited and done with, has covered everything reachable.
    proof fn lemma_end_covers(&self, current: usize)
        requires
            self.wf(),
            self.current_ptr == Some(current),
            self.visited_stack@.contains(current),
            self.done_with(current),
            self.queue@.len() == 0,
            self.roots_stack@.len() == 0,
        ensures
            covers_reachable(self.iterable, self.visited_stack@),
    {
        let g = self.iterable;
        assert forall|u: usize, k: int|
            self.visited_stack@.contains(u) && u < g.edges@.len() && 0 <= k < g.edges@[u as int]@.len()
                implies self.visited_stack@.contains(#[trigger] g.edges@[u as int]@[k]) by {
            assert(self.done_with(u) || self.queue@.contains(u) || self.current_ptr == Some(u));
        }
    }
}

} // verus!
