//! Diagnostics plumbing: which documents are related to a document (its
//! closure in the project graph), and how long diagnostic reports are cut
//! into the batch kept in a response and the chunks streamed after it.

use vstd::prelude::*;

verus! {

/// An edge of the project graph relates `a` and `b`, in either direction.
pub open spec fn linked(es: Seq<(usize, usize)>, a: int, b: int) -> bool {
    exists|i: int|
        0 <= i < es.len() && ((es[i].0 == a && es[i].1 == b) || (es[i].1 == a && es[i].0 == b))
}

/// `p` is a walk of at least one edge.
pub open spec fn is_walk(es: Seq<(usize, usize)>, p: Seq<int>) -> bool {
    p.len() >= 2 && forall|k: int| 0 <= k < p.len() - 1 ==> linked(es, #[trigger] p[k], p[k + 1])
}

/// `b` can be reached from `a` along at least one edge, in any direction.
pub open spec fn connected(es: Seq<(usize, usize)>, a: int, b: int) -> bool {
    exists|p: Seq<int>| is_walk(es, p) && p[0] == a && p.last() == b
}

/// Relatedness is symmetric: when `b` is connected to `a`, `a` is
/// connected to `b` (walk the same edges back).
pub proof fn lemma_connected_symmetric(es: Seq<(usize, usize)>, a: int, b: int)
    requires
        connected(es, a, b),
    ensures
        connected(es, b, a),
{
    let p = choose|p: Seq<int>| is_walk(es, p) && p[0] == a && p.last() == b;
    let q = p.reverse();
    assert(is_walk(es, q)) by {
        assert forall|k: int| 0 <= k < q.len() - 1 implies linked(es, #[trigger] q[k], q[k + 1]) by {
            let j = p.len() - 2 - k;
            assert(q[k] == p[j + 1]);
            assert(q[k + 1] == p[j]);
            assert(linked(es, p[j], p[j + 1]));
            let i = choose|i: int|
                0 <= i < es.len() && ((es[i].0 == p[j] && es[i].1 == p[j + 1]) || (es[i].1 == p[j]
                    && es[i].0 == p[j + 1]));
            assert(0 <= i < es.len() && ((es[i].0 == q[k] && es[i].1 == q[k + 1]) || (es[i].1
                == q[k] && es[i].0 == q[k + 1])));
        }
    }
    assert(q[0] == b);
    assert(q.last() == a);
}

/// The targets of the edges from `n` among the first `hi` edges, in order.
pub open spec fn targets_of(es: Seq<(usize, usize)>, n: int, hi: int) -> Seq<usize>
    decreases hi,
{
    if hi <= 0 {
        seq![]
    } else if es[hi - 1].0 == n {
        targets_of(es, n, hi - 1).push(es[hi - 1].1)
    } else {
        targets_of(es, n, hi - 1)
    }
}

/// The sources of the edges into `n` among the first `hi` edges, in order.
pub open spec fn sources_of(es: Seq<(usize, usize)>, n: int, hi: int) -> Seq<usize>
    decreases hi,
{
    if hi <= 0 {
        seq![]
    } else if es[hi - 1].1 == n {
        sources_of(es, n, hi - 1).push(es[hi - 1].0)
    } else {
        sources_of(es, n, hi - 1)
    }
}

proof fn lemma_targets_contain(es: Seq<(usize, usize)>, n: int, hi: int, i: int)
    requires
        0 <= i < hi <= es.len(),
        es[i].0 == n,
    ensures
        targets_of(es, n, hi).contains(es[i].1),
    decreases hi,
{
    if i < hi - 1 {
        lemma_targets_contain(es, n, hi - 1, i);
        let p = targets_of(es, n, hi - 1);
        let k = choose|k: int| 0 <= k < p.len() && p[k] == es[i].1;
        if es[hi - 1].0 == n {
            assert(targets_of(es, n, hi)[k] == p[k]);
        }
    } else {
        assert(targets_of(es, n, hi).last() == es[i].1);
    }
}

proof fn lemma_sources_contain(es: Seq<(usize, usize)>, n: int, hi: int, i: int)
    requires
        0 <= i < hi <= es.len(),
        es[i].1 == n,
    ensures
        sources_of(es, n, hi).contains(es[i].0),
    decreases hi,
{
    if i < hi - 1 {
        lemma_sources_contain(es, n, hi - 1, i);
        let p = sources_of(es, n, hi - 1);
        let k = choose|k: int| 0 <= k < p.len() && p[k] == es[i].0;
        if es[hi - 1].1 == n {
            assert(sources_of(es, n, hi)[k] == p[k]);
        }
    } else {
        assert(sources_of(es, n, hi).last() == es[i].0);
    }
}

proof fn lemma_targets_linked(es: Seq<(usize, usize)>, n: int, hi: int)
    requires
        0 <= hi <= es.len(),
    ensures
        forall|k: int|
            0 <= k < targets_of(es, n, hi).len() ==> linked(es, n, #[trigger] targets_of(es, n, hi)[k]
                as int),
        forall|k: int|
            0 <= k < sources_of(es, n, hi).len() ==> linked(es, n, #[trigger] sources_of(es, n, hi)[k]
                as int),
    decreases hi,
{
    if hi > 0 {
        lemma_targets_linked(es, n, hi - 1);
        if es[hi - 1].0 == n {
            assert(linked(es, n, es[hi - 1].1 as int)) by {
                assert(0 <= hi - 1 < es.len());
            }
        }
        if es[hi - 1].1 == n {
            assert(linked(es, n, es[hi - 1].0 as int)) by {
                assert(0 <= hi - 1 < es.len());
            }
        }
        assert forall|k: int| 0 <= k < targets_of(es, n, hi).len() implies linked(
            es,
            n,
            #[trigger] targets_of(es, n, hi)[k] as int,
        ) by {
            if k < targets_of(es, n, hi - 1).len() {
                assert(targets_of(es, n, hi)[k] == targets_of(es, n, hi - 1)[k]);
            }
        }
        assert forall|k: int| 0 <= k < sources_of(es, n, hi).len() implies linked(
            es,
            n,
            #[trigger] sources_of(es, n, hi)[k] as int,
        ) by {
            if k < sources_of(es, n, hi - 1).len() {
                assert(sources_of(es, n, hi)[k] == sources_of(es, n, hi - 1)[k]);
            }
        }
    }
}

/// The dependency graph of a project: documents, includes, metadata files
/// and project manifests are the nodes `0..node_count`; an edge `(a, b)`
/// says that `a` depends on `b`.
pub struct ProjectGraph {
    node_count: usize,
    edges: Vec<(usize, usize)>,
}

impl ProjectGraph {
    /// The number of nodes.
    pub closed spec fn nodes(&self) -> nat {
        self.node_count as nat
    }

    /// The edges, in the order they were added.
    pub closed spec fn edge_seq(&self) -> Seq<(usize, usize)> {
        self.edges@
    }

    #[verifier::type_invariant]
    spec fn inv(self) -> bool {
        forall|i: int|
            0 <= i < self.edges@.len() ==> #[trigger] self.edges@[i].0 < self.node_count
                && self.edges@[i].1 < self.node_count
    }

    /// A graph of `node_count` nodes and no edges.
    pub fn new(node_count: usize) -> (g: Self)
        ensures
            g.nodes() == node_count,
            g.edge_seq() == Seq::<(usize, usize)>::empty(),
    {
        ProjectGraph { node_count, edges: Vec::new() }
    }

    /// The number of nodes.
    pub fn node_count(&self) -> (n: usize)
        ensures
            n == self.nodes(),
    {
        self.node_count
    }

    /// Record that `from` depends on `to`.
    pub fn add_dependency(&mut self, from: usize, to: usize)
        requires
            from < old(self).nodes(),
            to < old(self).nodes(),
        ensures
            final(self).nodes() == old(self).nodes(),
            final(self).edge_seq() == old(self).edge_seq().push((from, to)),
    {
        proof {
            use_type_invariant(&*self);
        }
        let mut edges = Vec::new();
        std::mem::swap(&mut edges, &mut self.edges);
        edges.push((from, to));
        assert forall|i: int| 0 <= i < edges@.len() implies #[trigger] edges@[i].0 < self.node_count
            && edges@[i].1 < self.node_count by {
            if i < edges@.len() - 1 {
                assert(edges@[i] == old(self).edges@[i]);
            }
        }
        self.edges = edges;
    }

    /// What `n` depends on, in edge order.
    pub fn dependencies(&self, n: usize) -> (v: Vec<usize>)
        ensures
            v@ == targets_of(self.edge_seq(), n as int, self.edge_seq().len() as int),
            forall|k: int| 0 <= k < v@.len() ==> #[trigger] v@[k] < self.nodes(),
    {
        proof {
            use_type_invariant(self);
        }
        let mut v: Vec<usize> = Vec::new();
        let mut i: usize = 0;
        while i < self.edges.len()
            invariant
                i <= self.edges@.len(),
                v@ == targets_of(self.edges@, n as int, i as int),
                forall|k: int| 0 <= k < v@.len() ==> #[trigger] v@[k] < self.node_count,
                forall|j: int|
                    0 <= j < self.edges@.len() ==> #[trigger] self.edges@[j].0 < self.node_count
                        && self.edges@[j].1 < self.node_count,
            decreases self.edges.len() - i,
        {
            let (a, b) = self.edges[i];
            if a == n {
                v.push(b);
            }
            i = i + 1;
        }
        v
    }

    /// What depends on `n`, in edge order.
    pub fn dependents(&self, n: usize) -> (v: Vec<usize>)
        ensures
            v@ == sources_of(self.edge_seq(), n as int, self.edge_seq().len() as int),
            forall|k: int| 0 <= k < v@.len() ==> #[trigger] v@[k] < self.nodes(),
    {
        proof {
            use_type_invariant(self);
        }
        let mut v: Vec<usize> = Vec::new();
        let mut i: usize = 0;
        while i < self.edges.len()
            invariant
                i <= self.edges@.len(),
                v@ == sources_of(self.edges@, n as int, i as int),
                forall|k: int| 0 <= k < v@.len() ==> #[trigger] v@[k] < self.node_count,
                forall|j: int|
                    0 <= j < self.edges@.len() ==> #[trigger] self.edges@[j].0 < self.node_count
                        && self.edges@[j].1 < self.node_count,
            decreases self.edges.len() - i,
        {
            let (a, b) = self.edges[i];
            if b == n {
                v.push(a);
            }
            i = i + 1;
        }
        v
    }
}

/// Number of `true` entries of `s`.
pub open spec fn count_true(s: Seq<bool>) -> nat
    decreases s.len(),
{
    if s.len() == 0 {
        0
    } else {
        count_true(s.drop_last()) + if s.last() {
            1nat
        } else {
            0nat
        }
    }
}

proof fn lemma_count_true_bound(s: Seq<bool>)
    ensures
        count_true(s) <= s.len(),
    decreases s.len(),
{
    if s.len() > 0 {
        lemma_count_true_bound(s.drop_last());
    }
}

proof fn lemma_count_true_set(s: Seq<bool>, i: int)
    requires
        0 <= i < s.len(),
        !s[i],
    ensures
        count_true(s.update(i, true)) == count_true(s) + 1,
    decreases s.len(),
{
    let u = s.update(i, true);
    if i < s.len() - 1 {
        assert(u.drop_last() =~= s.drop_last().update(i, true));
        lemma_count_true_set(s.drop_last(), i);
    } else {
        assert(u.drop_last() =~= s.drop_last());
    }
}

/// Node `x` has been reached: it is the root or it is marked visited.
spec fn reached(visited: Seq<bool>, root: int, x: int) -> bool {
    x == root || (0 <= x < visited.len() && visited[x])
}

/// Every walk from the root ends at a reached node when the reached nodes
/// are closed under the edges.
proof fn lemma_walk_reached(es: Seq<(usize, usize)>, visited: Seq<bool>, root: int, p: Seq<int>)
    requires
        is_walk(es, p),
        p[0] == root,
        forall|i: int|
            0 <= i < es.len() ==> (reached(visited, root, #[trigger] es[i].0 as int) ==> reached(
                visited,
                root,
                es[i].1 as int,
            )) && (reached(visited, root, es[i].1 as int) ==> reached(
                visited,
                root,
                es[i].0 as int,
            )),
    ensures
        reached(visited, root, p.last()),
    decreases p.len(),
{
    if p.len() > 2 {
        let q = p.drop_last();
        assert(is_walk(es, q)) by {
            assert forall|k: int| 0 <= k < q.len() - 1 implies linked(
                es,
                #[trigger] q[k],
                q[k + 1],
            ) by {
                assert(q[k] == p[k] && q[k + 1] == p[k + 1]);
                assert(linked(es, p[k], p[k + 1]));
            }
        }
        lemma_walk_reached(es, visited, root, q);
        assert(linked(es, p[p.len() - 2], p[p.len() - 1]));
    } else {
        assert(linked(es, p[0], p[1]));
    }
}

proof fn lemma_count_false(s: Seq<bool>)
    requires
        forall|j: int| 0 <= j < s.len() ==> !s[j],
    ensures
        count_true(s) == 0,
    decreases s.len(),
{
    if s.len() > 0 {
        lemma_count_false(s.drop_last());
    }
}

/// Extending a walk from the root to `x` by an edge from `x` to `y`.
proof fn lemma_extend_walk(es: Seq<(usize, usize)>, visited: Seq<bool>, root: int, x: int, y: int)
    requires
        reached(visited, root, x),
        x != root ==> connected(es, root, x),
        linked(es, x, y),
    ensures
        connected(es, root, y),
{
    if x == root {
        let p = seq![root, y];
        assert(is_walk(es, p)) by {
            assert forall|k: int| 0 <= k < p.len() - 1 implies linked(es, #[trigger] p[k], p[k + 1]) by {
                assert(k == 0);
            }
        }
        assert(p.last() == y);
    } else {
        let p = choose|p: Seq<int>| is_walk(es, p) && p[0] == root && p.last() == x;
        let q = p.push(y);
        assert(is_walk(es, q)) by {
            assert forall|k: int| 0 <= k < q.len() - 1 implies linked(es, #[trigger] q[k], q[k + 1]) by {
                if k < p.len() - 1 {
                    assert(q[k] == p[k] && q[k + 1] == p[k + 1]);
                    assert(linked(es, p[k], p[k + 1]));
                } else {
                    assert(q[k] == x && q[k + 1] == y);
                }
            }
        }
        assert(q[0] == root && q.last() == y);
    }
}

/// Mark every node of `next` visited, pushing the ones not yet visited on
/// the stack; all of them are neighbours of the reached node `x`.
fn visit_all(
    next: &Vec<usize>,
    visited: &mut Vec<bool>,
    stack: &mut Vec<usize>,
    seen: &mut usize,
    Ghost(es): Ghost<Seq<(usize, usize)>>,
    Ghost(root): Ghost<usize>,
    Ghost(x): Ghost<usize>,
)
    requires
        old(visited)@.len() <= usize::MAX,
        *old(seen) == count_true(old(visited)@),
        forall|k: int| 0 <= k < next@.len() ==> #[trigger] next@[k] < old(visited)@.len(),
        forall|k: int| 0 <= k < next@.len() ==> linked(es, x as int, #[trigger] next@[k] as int),
        reached(old(visited)@, root as int, x as int),
        x != root ==> connected(es, root as int, x as int),
        forall|v: int|
            0 <= v < old(visited)@.len() && old(visited)@[v] ==> connected(es, root as int, v),
        forall|j: int|
            0 <= j < old(stack)@.len() ==> reached(old(visited)@, root as int, #[trigger] old(stack)@[j] as int),
    ensures
        final(visited)@.len() == old(visited)@.len(),
        *final(seen) == count_true(final(visited)@),
        2 * (old(visited)@.len() - *final(seen)) + final(stack)@.len() <= 2 * (old(visited)@.len()
            - *old(seen)) + old(stack)@.len(),
        forall|k: int| 0 <= k < next@.len() ==> final(visited)@[#[trigger] next@[k] as int],
        forall|v: int| 0 <= v < old(visited)@.len() && old(visited)@[v] ==> final(visited)@[v],
        forall|v: int|
            0 <= v < final(visited)@.len() && final(visited)@[v] ==> connected(es, root as int, v),
        forall|j: int|
            0 <= j < final(stack)@.len() ==> reached(final(visited)@, root as int, #[trigger] final(stack)@[j] as int),
        forall|v: usize| old(stack)@.contains(v) ==> final(stack)@.contains(v),
        forall|v: usize|
            #![trigger final(stack)@.contains(v)]
            final(stack)@.contains(v) && !old(stack)@.contains(v) ==> old(visited)@.len() > v
                && !old(visited)@[v as int],
        forall|v: int|
            0 <= v < final(visited)@.len() && final(visited)@[v] && !old(visited)@[v]
                ==> final(stack)@.contains(v as usize),
{
    proof {
        lemma_count_true_bound(visited@);
    }
    let ghost v0 = visited@;
    let ghost s0 = stack@;
    let ghost m0 = 2 * (v0.len() - *seen) + s0.len();
    let mut k: usize = 0;
    while k < next.len()
        invariant
            k <= next@.len(),
            visited@.len() == v0.len(),
            *seen == count_true(visited@),
            *seen <= visited@.len(),
            2 * (v0.len() - *seen) + stack@.len() <= m0,
            forall|j: int| 0 <= j < next@.len() ==> #[trigger] next@[j] < v0.len(),
            forall|j: int| 0 <= j < next@.len() ==> linked(es, x as int, #[trigger] next@[j] as int),
            reached(v0, root as int, x as int),
            x != root ==> connected(es, root as int, x as int),
            forall|j: int| 0 <= j < k ==> visited@[#[trigger] next@[j] as int],
            forall|v: int| 0 <= v < v0.len() && v0[v] ==> visited@[v],
            forall|v: int| 0 <= v < visited@.len() && visited@[v] ==> connected(es, root as int, v),
            forall|j: int|
                0 <= j < stack@.len() ==> reached(visited@, root as int, #[trigger] stack@[j] as int),
            forall|v: usize| s0.contains(v) ==> stack@.contains(v),
            forall|v: usize|
                #![trigger stack@.contains(v)]
                stack@.contains(v) && !s0.contains(v) ==> v0.len() > v && !v0[v as int],
            forall|v: int|
                0 <= v < visited@.len() && visited@[v] && !v0[v] ==> stack@.contains(v as usize),
            v0.len() <= usize::MAX,
        decreases next@.len() - k,
    {
        let y = next[k];
        if !visited[y] {
            proof {
                lemma_count_true_set(visited@, y as int);
                lemma_count_true_bound(visited@.update(y as int, true));
                assert(reached(v0, root as int, x as int));
                if x != root {
                    assert(0 <= x < v0.len() && v0[x as int]);
                    assert(visited@[x as int]);
                }
                lemma_extend_walk(es, visited@, root as int, x as int, y as int);
                assert(!v0[y as int]);
            }
            visited.set(y, true);
            let ghost sp = stack@;
            stack.push(y);
            *seen = *seen + 1;
            proof {
                assert forall|v: usize| sp.contains(v) implies stack@.contains(v) by {
                    let j = choose|j: int| 0 <= j < sp.len() && sp[j] == v;
                    assert(stack@[j] == v);
                }
                assert(stack@[sp.len() as int] == y);
                assert(stack@.contains(y));
                assert forall|v: usize| stack@.contains(v) && !s0.contains(v) implies v0.len() > v
                    && !v0[v as int] by {
                    let j = choose|j: int| 0 <= j < stack@.len() && stack@[j] == v;
                    if j < sp.len() {
                        assert(sp[j] == v);
                        assert(sp.contains(v));
                    } else {
                        assert(v == y);
                    }
                }
            }
        }
        k = k + 1;
    }
}

/// Every node connected to `root` through the graph, in either direction
/// and over every kind of edge, except `root` itself; in increasing order.
pub fn project_closure(graph: &ProjectGraph, root: usize) -> (r: Vec<usize>)
    ensures
        forall|x: usize|
            #![trigger r@.contains(x)]
            r@.contains(x) <==> (x != root && connected(graph.edge_seq(), root as int, x as int)),
        forall|a: int, b: int| 0 <= a < b < r@.len() ==> r@[a] < r@[b],
{
    proof {
        use_type_invariant(graph);
    }
    let ghost es = graph.edge_seq();
    let n = graph.node_count();
    let mut visited: Vec<bool> = Vec::new();
    let mut k: usize = 0;
    while k < n
        invariant
            k <= n,
            visited@.len() == k,
            forall|j: int| 0 <= j < k ==> !visited@[j],
        decreases n - k,
    {
        visited.push(false);
        k = k + 1;
    }
    proof {
        lemma_count_false(visited@);
    }
    let mut seen: usize = 0;
    let mut stack: Vec<usize> = Vec::new();
    stack.push(root);
    proof {
        assert(stack@[0] == root);
        assert(stack@.contains(root));
    }
    loop
        invariant
            n == graph.nodes(),
            es == graph.edge_seq(),
            visited@.len() == n,
            seen == count_true(visited@),
            seen <= n,
            forall|i: int| 0 <= i < es.len() ==> #[trigger] es[i].0 < n && es[i].1 < n,
            forall|v: int| 0 <= v < n && visited@[v] ==> connected(es, root as int, v),
            forall|j: int|
                0 <= j < stack@.len() ==> reached(visited@, root as int, #[trigger] stack@[j] as int),
            forall|i: int|
                #![trigger es[i]]
                0 <= i < es.len() ==> (reached(visited@, root as int, es[i].0 as int)
                    && !stack@.contains(es[i].0) ==> visited@[es[i].1 as int]) && (reached(
                    visited@,
                    root as int,
                    es[i].1 as int,
                ) && !stack@.contains(es[i].1) ==> visited@[es[i].0 as int]),
        ensures
            stack@.len() == 0,
        decreases 2 * (n - seen) + stack@.len(),
    {
        let ghost s_before = stack@;
        let x = match stack.pop() {
            Some(x) => x,
            None => {
                break;
            },
        };
        proof {
            assert(s_before[s_before.len() - 1] == x);
            assert(reached(visited@, root as int, x as int));
            assert forall|v: usize| s_before.contains(v) && v != x implies stack@.contains(v) by {
                let j = choose|j: int| 0 <= j < s_before.len() && s_before[j] == v;
                assert(j < stack@.len());
                assert(stack@[j] == v);
            }
            lemma_targets_linked(es, x as int, es.len() as int);
            lemma_count_true_bound(visited@);
        }
        let ghost v_mid = visited@;
        let ghost st_mid = stack@;
        let deps = graph.dependencies(x);
        visit_all(&deps, &mut visited, &mut stack, &mut seen, Ghost(es), Ghost(root), Ghost(x));
        let ghost v_mid2 = visited@;
        let ghost st_mid2 = stack@;
        let dependents = graph.dependents(x);
        proof {
            assert(reached(visited@, root as int, x as int)) by {
                if x != root {
                    assert(v_mid[x as int]);
                }
            }
        }
        visit_all(&dependents, &mut visited, &mut stack, &mut seen, Ghost(es), Ghost(root), Ghost(x));
        proof {
            lemma_count_true_bound(visited@);
            assert(2 * (n - seen) + stack@.len() < 2 * (n - count_true(v_mid)) + s_before.len());
            assert forall|i: int|
                #![trigger es[i]]
                0 <= i < es.len() implies (reached(visited@, root as int, es[i].0 as int)
                    && !stack@.contains(es[i].0) ==> visited@[es[i].1 as int]) && (reached(
                    visited@,
                    root as int,
                    es[i].1 as int,
                ) && !stack@.contains(es[i].1) ==> visited@[es[i].0 as int]) by {
                let a = es[i].0;
                let b = es[i].1;
                if reached(visited@, root as int, a as int) && !stack@.contains(a) {
                    if a == x {
                        lemma_targets_contain(es, x as int, es.len() as int, i);
                        let j = choose|j: int| 0 <= j < deps@.len() && deps@[j] == b;
                        assert(v_mid2[deps@[j] as int]);
                    } else {
                        assert(!st_mid.contains(a)) by {
                            if st_mid.contains(a) {
                                assert(st_mid2.contains(a));
                                assert(stack@.contains(a));
                            }
                        }
                        assert(!s_before.contains(a));
                        if reached(v_mid, root as int, a as int) {
                            assert(v_mid[b as int]);
                        } else {
                            assert(visited@[a as int]);
                            if !v_mid2[a as int] {
                                assert(stack@.contains(a));
                            } else {
                                assert(st_mid2.contains(a));
                                assert(stack@.contains(a));
                            }
                        }
                    }
                }
                if reached(visited@, root as int, b as int) && !stack@.contains(b) {
                    if b == x {
                        lemma_sources_contain(es, x as int, es.len() as int, i);
                        let j = choose|j: int| 0 <= j < dependents@.len() && dependents@[j] == a;
                        assert(visited@[dependents@[j] as int]);
                    } else {
                        assert(!st_mid.contains(b)) by {
                            if st_mid.contains(b) {
                                assert(st_mid2.contains(b));
                                assert(stack@.contains(b));
                            }
                        }
                        assert(!s_before.contains(b));
                        if reached(v_mid, root as int, b as int) {
                            assert(v_mid[a as int]);
                        } else {
                            assert(visited@[b as int]);
                            if !v_mid2[b as int] {
                                assert(stack@.contains(b));
                            } else {
                                assert(st_mid2.contains(b));
                                assert(stack@.contains(b));
                            }
                        }
                    }
                }
            }
        }
    }
    proof {
        assert forall|i: int|
            0 <= i < es.len() implies (reached(visited@, root as int, #[trigger] es[i].0 as int)
            ==> reached(visited@, root as int, es[i].1 as int)) && (reached(
            visited@,
            root as int,
            es[i].1 as int,
        ) ==> reached(visited@, root as int, es[i].0 as int)) by {
            assert(!stack@.contains(es[i].0));
            assert(!stack@.contains(es[i].1));
        }
    }
    let mut r: Vec<usize> = Vec::new();
    let mut v: usize = 0;
    while v < n
        invariant
            v <= n == visited@.len(),
            forall|x: usize|
                #![trigger r@.contains(x)]
                r@.contains(x) <==> (x < v && visited@[x as int] && x != root),
            forall|a: int, b: int| 0 <= a < b < r@.len() ==> r@[a] < r@[b],
            forall|a: int| 0 <= a < r@.len() ==> r@[a] < v,
        decreases n - v,
    {
        if visited[v] && v != root {
            let ghost rp = r@;
            r.push(v);
            proof {
                assert forall|x: usize| r@.contains(x) <==> (x < v + 1 && visited@[x as int] && x
                    != root) by {
                    if r@.contains(x) {
                        let j = choose|j: int| 0 <= j < r@.len() && r@[j] == x;
                        if j < rp.len() {
                            assert(rp[j] == x);
                            assert(rp.contains(x));
                        }
                    }
                    if x < v + 1 && visited@[x as int] && x != root {
                        if x < v {
                            assert(rp.contains(x));
                            let j = choose|j: int| 0 <= j < rp.len() && rp[j] == x;
                            assert(r@[j] == x);
                        } else {
                            assert(r@[rp.len() as int] == x);
                        }
                    }
                }
            }
        }
        v = v + 1;
    }
    proof {
        assert forall|x: usize| r@.contains(x) <==> (x != root && connected(es, root as int, x as int)) by {
            if x != root && connected(es, root as int, x as int) {
                let p = choose|p: Seq<int>| is_walk(es, p) && p[0] == root && p.last() == x;
                lemma_walk_reached(es, visited@, root as int, p);
            }
        }
    }
    r
}

/// How many per-document reports a workspace response, and each chunk
/// streamed after it, carries.
pub const WORKSPACE_REPORT_CHUNK_SIZE: usize = 64;

/// How many related-document entries a document response, and each chunk
/// streamed after it, carries.
pub const RELATED_REPORT_CHUNK_SIZE: usize = 64;

/// `s` cut into consecutive chunks of `size` items, the last one possibly
/// shorter; no chunk for an empty `s`.
pub open spec fn chunks_of<T>(s: Seq<T>, size: nat) -> Seq<Seq<T>>
    decreases s.len(),
{
    if s.len() == 0 || size == 0 {
        seq![]
    } else if s.len() <= size {
        seq![s]
    } else {
        seq![s.take(size as int)] + chunks_of(s.skip(size as int), size)
    }
}

/// The views of a vector of vectors.
pub open spec fn chunk_views<T>(v: Seq<Vec<T>>) -> Seq<Seq<T>> {
    v.map_values(|c: Vec<T>| c@)
}

/// Chunking loses and reorders nothing: the chunks, concatenated, give
/// back the items; and every chunk holds between one and `size` items.
pub proof fn lemma_chunks_cover<T>(s: Seq<T>, size: nat)
    requires
        size > 0,
    ensures
        chunks_of(s, size).flatten() == s,
        forall|k: int|
            0 <= k < chunks_of(s, size).len() ==> 1 <= #[trigger] chunks_of(s, size)[k].len() <= size,
    decreases s.len(),
{
    if s.len() == 0 {
    } else if s.len() <= size {
        let c = seq![s];
        assert(c.drop_first() =~= Seq::<Seq<T>>::empty());
        assert(c.drop_first().flatten() =~= Seq::<T>::empty());
        assert(c.first() == s);
        assert(c.flatten() =~= s + Seq::<T>::empty());
    } else {
        lemma_chunks_cover(s.skip(size as int), size);
        let rest = chunks_of(s.skip(size as int), size);
        let c = seq![s.take(size as int)] + rest;
        assert(c.drop_first() =~= rest);
        assert(c.first() == s.take(size as int));
        assert(s.take(size as int) + s.skip(size as int) =~= s);
        assert forall|k: int| 0 <= k < c.len() implies 1 <= #[trigger] c[k].len() <= size by {
            if k > 0 {
                assert(c[k] == rest[k - 1]);
            }
        }
    }
}

/// Cut `items` into chunks of `size` (see [`chunks_of`]).
fn split_into_chunks<T>(items: Vec<T>, size: usize) -> (r: Vec<Vec<T>>)
    requires
        size > 0,
    ensures
        chunk_views(r@) == chunks_of(items@, size as nat),
{
    let ghost all = items@;
    let mut rest = items;
    let mut out: Vec<Vec<T>> = Vec::new();
    while rest.len() > 0
        invariant
            size > 0,
            chunk_views(out@) + chunks_of(rest@, size as nat) == chunks_of(all, size as nat),
        decreases rest@.len(),
    {
        let n = rest.len();
        let at = if n < size {
            n
        } else {
            size
        };
        let ghost before = rest@;
        let tail = rest.split_off(at);
        proof {
            if n <= size {
                assert(tail@.len() == 0);
                assert(chunks_of(tail@, size as nat) =~= Seq::<Seq<T>>::empty());
                assert(rest@ =~= before);
            } else {
                assert(rest@ =~= before.take(size as int));
                assert(tail@ =~= before.skip(size as int));
            }
        }
        let ghost outv = chunk_views(out@);
        out.push(rest);
        proof {
            assert(chunk_views(out@) =~= outv.push(before.subrange(0, at as int)));
            assert(chunks_of(before, size as nat) =~= seq![before.subrange(0, at as int)]
                + chunks_of(tail@, size as nat));
            assert(chunk_views(out@) + chunks_of(tail@, size as nat) =~= outv + chunks_of(
                before,
                size as nat,
            ));
        }
        rest = tail;
    }
    proof {
        assert(chunks_of(rest@, size as nat) =~= Seq::<Seq<T>>::empty());
        assert(chunk_views(out@) + Seq::<Seq<T>>::empty() =~= chunk_views(out@));
    }
    out
}

/// The reports a workspace response keeps when streaming: the first chunk.
pub open spec fn first_batch<T>(items: Seq<T>, size: nat) -> Seq<T> {
    if items.len() <= size {
        items
    } else {
        items.take(size as int)
    }
}

/// Split the per-document workspace reports into the batch kept in the
/// response and the chunks streamed after it. Without a progress token
/// everything stays in the response. With one, the response keeps the
/// first chunk of [`WORKSPACE_REPORT_CHUNK_SIZE`] reports and the rest is
/// cut into chunks of that size; the response followed by the chunks gives
/// back every report, in order.
pub fn split_workspace_items<T>(has_token: bool, items: Vec<T>) -> (r: (Vec<T>, Vec<Vec<T>>))
    ensures
        !has_token ==> r.0@ == items@ && r.1@.len() == 0,
        has_token ==> r.0@ == first_batch(items@, WORKSPACE_REPORT_CHUNK_SIZE as nat),
        has_token ==> chunk_views(r.1@) == chunks_of(
            items@.skip(r.0@.len() as int),
            WORKSPACE_REPORT_CHUNK_SIZE as nat,
        ),
        r.0@ + chunk_views(r.1@).flatten() == items@,
        forall|k: int|
            0 <= k < r.1@.len() ==> 1 <= #[trigger] r.1@[k]@.len() <= WORKSPACE_REPORT_CHUNK_SIZE,
{
    if !has_token {
        let none: Vec<Vec<T>> = Vec::new();
        proof {
            assert(chunk_views(none@) =~= Seq::<Seq<T>>::empty());
            assert(items@ + Seq::<T>::empty() =~= items@);
        }
        return (items, none);
    }
    let ghost all = items@;
    let mut first = items;
    let n = first.len();
    let at = if n < WORKSPACE_REPORT_CHUNK_SIZE {
        n
    } else {
        WORKSPACE_REPORT_CHUNK_SIZE
    };
    let rest = first.split_off(at);
    proof {
        assert(first@ =~= first_batch(all, WORKSPACE_REPORT_CHUNK_SIZE as nat));
        assert(rest@ =~= all.skip(first@.len() as int));
        lemma_chunks_cover(rest@, WORKSPACE_REPORT_CHUNK_SIZE as nat);
        assert(first@ + rest@ =~= all);
    }
    let chunks = split_into_chunks(rest, WORKSPACE_REPORT_CHUNK_SIZE);
    proof {
        assert forall|k: int| 0 <= k < chunks@.len() implies 1 <= #[trigger] chunks@[k]@.len()
            <= WORKSPACE_REPORT_CHUNK_SIZE by {
            assert(chunk_views(chunks@)[k] == chunks@[k]@);
        }
    }
    (first, chunks)
}

/// Split the related-document entries of a document response into those
/// kept in the response and the chunks streamed after it. Without a
/// progress token, or without entries, nothing changes. With a token, a
/// list of at most [`RELATED_REPORT_CHUNK_SIZE`] entries stays whole (an
/// empty one becomes none); a longer one keeps its first chunk in the
/// response and the rest is cut into chunks of that size. The response
/// followed by the chunks gives back every entry, in order.
pub fn split_related<T>(has_token: bool, related: Option<Vec<T>>) -> (r: (
    Option<Vec<T>>,
    Vec<Vec<T>>,
))
    ensures
        !has_token ==> r.0 == related && r.1@.len() == 0,
        match related {
            None => r.0 is None && r.1@.len() == 0,
            Some(m) => {
                &&& has_token && m@.len() == 0 ==> r.0 is None && r.1@.len() == 0
                &&& has_token && 0 < m@.len() <= RELATED_REPORT_CHUNK_SIZE ==> r.0 == related
                    && r.1@.len() == 0
                &&& has_token && m@.len() > RELATED_REPORT_CHUNK_SIZE ==> {
                    &&& r.0 is Some
                    &&& r.0->0@ == m@.take(RELATED_REPORT_CHUNK_SIZE as int)
                    &&& chunk_views(r.1@) == chunks_of(
                        m@.skip(RELATED_REPORT_CHUNK_SIZE as int),
                        RELATED_REPORT_CHUNK_SIZE as nat,
                    )
                }
                &&& (match r.0 {
                    Some(f) => f@,
                    None => Seq::<T>::empty(),
                }) + chunk_views(r.1@).flatten() == m@
            },
        },
        forall|k: int|
            0 <= k < r.1@.len() ==> 1 <= #[trigger] r.1@[k]@.len() <= RELATED_REPORT_CHUNK_SIZE,
{
    let none: Vec<Vec<T>> = Vec::new();
    proof {
        assert(chunk_views(none@) =~= Seq::<Seq<T>>::empty());
    }
    if !has_token {
        proof {
            if related is Some {
                assert(related->0@ + Seq::<T>::empty() =~= related->0@);
            }
        }
        return (related, none);
    }
    let mut map = match related {
        Some(m) => m,
        None => {
            return (None, none);
        },
    };
    if map.len() <= RELATED_REPORT_CHUNK_SIZE {
        if map.len() == 0 {
            proof {
                assert(Seq::<T>::empty() + Seq::<T>::empty() =~= map@);
            }
            return (None, none);
        }
        proof {
            assert(map@ + Seq::<T>::empty() =~= map@);
        }
        return (Some(map), none);
    }
    let ghost all = map@;
    let rest = map.split_off(RELATED_REPORT_CHUNK_SIZE);
    proof {
        lemma_chunks_cover(rest@, RELATED_REPORT_CHUNK_SIZE as nat);
        assert(map@ + rest@ =~= all);
        assert(rest@ =~= all.skip(RELATED_REPORT_CHUNK_SIZE as int));
    }
    let chunks = split_into_chunks(rest, RELATED_REPORT_CHUNK_SIZE);
    proof {
        assert forall|k: int| 0 <= k < chunks@.len() implies 1 <= #[trigger] chunks@[k]@.len()
            <= RELATED_REPORT_CHUNK_SIZE by {
            assert(chunk_views(chunks@)[k] == chunks@[k]@);
        }
    }
    (Some(map), chunks)
}

/// Relatedness is mutual: `b` is in the closure of `a` exactly when `a`
/// is in the closure of `b`.
pub proof fn lemma_closure_mutual(graph: &ProjectGraph, a: usize, b: usize)
    ensures
        (a != b && connected(graph.edge_seq(), a as int, b as int)) <==> (b != a && connected(
            graph.edge_seq(),
            b as int,
            a as int,
        )),
{
    if connected(graph.edge_seq(), a as int, b as int) {
        lemma_connected_symmetric(graph.edge_seq(), a as int, b as int);
    }
    if connected(graph.edge_seq(), b as int, a as int) {
        lemma_connected_symmetric(graph.edge_seq(), b as int, a as int);
    }
}

} // verus!
