use vstd::prelude::*;

verus! {

broadcast use vstd::seq_lib::group_seq_properties;

// ── Orders over a graph of `n` nodes ─────────────────────────────────────────

/// `ord` lists every node `0..n` exactly once, and the source of every edge
/// comes before its target.
pub open spec fn is_topological_order(ord: Seq<usize>, n: nat, edges: Seq<(usize, usize)>) -> bool {
    &&& ord.len() == n
    &&& ord.no_duplicates()
    &&& forall|i: int| 0 <= i < ord.len() ==> #[trigger] ord[i] < n
    &&& forall|k: int, j: int|
        #![trigger edges[k], ord[j]]
        0 <= k < edges.len() && 0 <= j < ord.len() && ord[j] == edges[k].1 ==> exists|i: int|
            0 <= i < j && ord[i] == edges[k].0
}

/// Every edge joins two of the `n` nodes.
pub open spec fn edges_in_range(n: nat, edges: Seq<(usize, usize)>) -> bool {
    forall|k: int| 0 <= k < edges.len() ==> (#[trigger] edges[k]).0 < n && edges[k].1 < n
}

/// The graph admits an order in which every edge points forwards (it has no cycle).
pub open spec fn is_acyclic(n: nat, edges: Seq<(usize, usize)>) -> bool {
    exists|ord: Seq<usize>| is_topological_order(ord, n, edges)
}

/// Number of edges among the first `k` that enter `v` from a node not yet `done`.
pub open spec fn in_count(edges: Seq<(usize, usize)>, k: int, v: usize, done: Seq<bool>) -> nat
    decreases k,
{
    if k <= 0 {
        0
    } else {
        in_count(edges, k - 1, v, done) + if edges[k - 1].1 == v && !done[edges[k - 1].0 as int] {
            1nat
        } else {
            0nat
        }
    }
}

/// Number of edges among the first `k` that go from `x` to `v`.
pub open spec fn from_count(edges: Seq<(usize, usize)>, k: int, x: usize, v: usize) -> nat
    decreases k,
{
    if k <= 0 {
        0
    } else {
        from_count(edges, k - 1, x, v) + if edges[k - 1].0 == x && edges[k - 1].1 == v {
            1nat
        } else {
            0nat
        }
    }
}

proof fn lemma_in_count_done_update(
    edges: Seq<(usize, usize)>,
    k: int,
    v: usize,
    done: Seq<bool>,
    x: usize,
)
    requires
        0 <= k <= edges.len(),
        x < done.len(),
        !done[x as int],
        edges_in_range(done.len(), edges),
    ensures
        in_count(edges, k, v, done.update(x as int, true)) + from_count(edges, k, x, v)
            == in_count(edges, k, v, done),
    decreases k,
{
    if k > 0 {
        lemma_in_count_done_update(edges, k - 1, v, done, x);
    }
}

proof fn lemma_in_count_covers_from(
    edges: Seq<(usize, usize)>,
    k: int,
    v: usize,
    done: Seq<bool>,
    x: usize,
)
    requires
        0 <= k <= edges.len(),
        x < done.len(),
        !done[x as int],
    ensures
        in_count(edges, k, v, done) >= from_count(edges, k, x, v),
    decreases k,
{
    if k > 0 {
        lemma_in_count_covers_from(edges, k - 1, v, done, x);
    }
}

proof fn lemma_in_count_witness(edges: Seq<(usize, usize)>, k: int, v: usize, done: Seq<bool>)
    requires
        0 <= k <= edges.len(),
    ensures
        in_count(edges, k, v, done) > 0 ==> exists|j: int|
            0 <= j < k && (#[trigger] edges[j]).1 == v && !done[edges[j].0 as int],
        in_count(edges, k, v, done) == 0 ==> forall|j: int|
            0 <= j < k && (#[trigger] edges[j]).1 == v ==> done[edges[j].0 as int],
        in_count(edges, k, v, done) <= k,
    decreases k,
{
    if k > 0 {
        lemma_in_count_witness(edges, k - 1, v, done);
    }
}

proof fn lemma_from_count_bound(edges: Seq<(usize, usize)>, k: int, x: usize, v: usize)
    requires
        0 <= k <= edges.len(),
    ensures
        from_count(edges, k, x, v) <= k,
    decreases k,
{
    if k > 0 {
        lemma_from_count_bound(edges, k - 1, x, v);
    }
}

proof fn lemma_from_count_monotone(edges: Seq<(usize, usize)>, j: int, k: int, x: usize, v: usize)
    requires
        0 <= j <= k <= edges.len(),
    ensures
        from_count(edges, j, x, v) <= from_count(edges, k, x, v),
    decreases k - j,
{
    if j < k {
        lemma_from_count_monotone(edges, j, k - 1, x, v);
    }
}

/// The nodes `0..n`, as a set.
pub open spec fn node_set(n: nat) -> Set<usize> {
    Set::new(|v: usize| v < n)
}

proof fn lemma_node_set_len(n: nat)
    requires
        n <= usize::MAX + 1,
    ensures
        node_set(n).finite(),
        node_set(n).len() == n,
    decreases n,
{
    if n == 0 {
        assert(node_set(n) =~= Set::empty());
    } else {
        lemma_node_set_len((n - 1) as nat);
        assert(node_set((n - 1) as nat).insert((n - 1) as usize) =~= node_set(n));
    }
}

/// A duplicate-free list of nodes below `n` has at most `n` entries, and it has
/// exactly `n` entries precisely when it names every node.
proof fn lemma_distinct_nodes_len(s: Seq<usize>, n: nat)
    requires
        n <= usize::MAX + 1,
        s.no_duplicates(),
        forall|i: int| 0 <= i < s.len() ==> #[trigger] s[i] < n,
    ensures
        s.len() <= n,
        s.len() == n ==> forall|v: usize| v < n ==> s.contains(v),
        (forall|v: usize| v < n ==> s.contains(v)) ==> s.len() == n,
{
    lemma_node_set_len(n);
    s.unique_seq_to_set();
    assert(s.to_set().subset_of(node_set(n)));
    vstd::set_lib::lemma_len_subset(s.to_set(), node_set(n));
    if s.len() == n {
        assert forall|v: usize| v < n implies s.contains(v) by {
            if !s.contains(v) {
                assert(s.to_set().subset_of(node_set(n).remove(v)));
                vstd::set_lib::lemma_len_subset(s.to_set(), node_set(n).remove(v));
            }
        }
    }
    if forall|v: usize| v < n ==> s.contains(v) {
        assert(node_set(n).subset_of(s.to_set()));
        vstd::set_lib::lemma_len_subset(node_set(n), s.to_set());
    }
}

/// Position of `v` in `ord`.
spec fn position(ord: Seq<usize>, v: usize) -> int {
    choose|i: int| 0 <= i < ord.len() && ord[i] == v
}

proof fn lemma_blocked_nodes_lie_late(
    ord: Seq<usize>,
    n: nat,
    edges: Seq<(usize, usize)>,
    blocked: spec_fn(usize) -> bool,
    k: nat,
)
    requires
        n <= usize::MAX + 1,
        is_topological_order(ord, n, edges),
        forall|v: usize|
            v < n && #[trigger] blocked(v) ==> exists|e: int|
                0 <= e < edges.len() && (#[trigger] edges[e]).1 == v && blocked(edges[e].0),
    ensures
        forall|v: usize| v < n && #[trigger] blocked(v) ==> position(ord, v) >= k,
    decreases k,
{
    lemma_distinct_nodes_len(ord, n);
    if k == 0 {
        assert forall|v: usize| v < n && #[trigger] blocked(v) implies position(ord, v) >= k by {
            assert(ord.contains(v));
        }
    } else {
        lemma_blocked_nodes_lie_late(ord, n, edges, blocked, (k - 1) as nat);
        assert forall|v: usize| v < n && #[trigger] blocked(v) implies position(ord, v) >= k by {
            let e = choose|e: int|
                0 <= e < edges.len() && (#[trigger] edges[e]).1 == v && blocked(edges[e].0);
            assert(ord.contains(v));
            let j = position(ord, v);
            assert(ord[j] == edges[e].1);
            let i = choose|i: int| 0 <= i < j && ord[i] == edges[e].0;
            let u = edges[e].0;
            assert(ord.contains(u));
            let pu = position(ord, u);
            assert(ord[pu] == ord[i]);
            assert(pu == i);
            assert(u < n);
            assert(blocked(u));
            assert(pu >= k - 1);
        }
    }
}

/// When every node of a non-empty set has an edge entering it from the same set,
/// the graph has no topological order.
proof fn lemma_blocked_set_means_cycle(
    n: nat,
    edges: Seq<(usize, usize)>,
    blocked: spec_fn(usize) -> bool,
    w: usize,
)
    requires
        n <= usize::MAX + 1,
        w < n,
        blocked(w),
        forall|v: usize|
            v < n && #[trigger] blocked(v) ==> exists|e: int|
                0 <= e < edges.len() && (#[trigger] edges[e]).1 == v && blocked(edges[e].0),
    ensures
        !is_acyclic(n, edges),
{
    if is_acyclic(n, edges) {
        let ord = choose|ord: Seq<usize>| is_topological_order(ord, n, edges);
        lemma_blocked_nodes_lie_late(ord, n, edges, blocked, n);
        lemma_distinct_nodes_len(ord, n);
        assert(ord.contains(w));
        assert(position(ord, w) >= n);
    }
}

/// Some edge goes from `a` to `b`.
pub open spec fn has_edge(edges: Seq<(usize, usize)>, a: usize, b: usize) -> bool {
    exists|e: int| 0 <= e < edges.len() && edges[e] == (a, b)
}

/// Each node of `path` has an edge to the next.
pub open spec fn is_path(edges: Seq<(usize, usize)>, path: Seq<usize>) -> bool {
    forall|k: int| 0 <= k < path.len() - 1 ==> #[trigger] has_edge(edges, path[k], path[k + 1])
}

/// `v` lies on a cycle: a path of at least one edge leads from `v` back to `v`.
pub open spec fn on_cycle(edges: Seq<(usize, usize)>, v: usize) -> bool {
    exists|path: Seq<usize>|
        #![trigger is_path(edges, path)]
        path.len() >= 2 && path[0] == v && path.last() == v && is_path(edges, path)
}

proof fn lemma_edge_points_forward(ord: Seq<usize>, n: nat, edges: Seq<(usize, usize)>, a: usize, b: usize)
    requires
        n <= usize::MAX + 1,
        is_topological_order(ord, n, edges),
        edges_in_range(n, edges),
        has_edge(edges, a, b),
    ensures
        ord.contains(a),
        ord.contains(b),
        position(ord, a) < position(ord, b),
{
    lemma_distinct_nodes_len(ord, n);
    let e = choose|e: int| 0 <= e < edges.len() && edges[e] == (a, b);
    assert(edges[e].0 < n && edges[e].1 < n);
    assert(ord.contains(b));
    let j = position(ord, b);
    assert(ord[j] == edges[e].1);
    let i = choose|i: int| 0 <= i < j && ord[i] == edges[e].0;
    assert(ord.contains(a));
    assert(position(ord, a) == i) by {
        let p = position(ord, a);
        assert(ord[p] == ord[i]);
    }
}

proof fn lemma_path_points_forward(ord: Seq<usize>, n: nat, edges: Seq<(usize, usize)>, path: Seq<usize>, k: int)
    requires
        n <= usize::MAX + 1,
        is_topological_order(ord, n, edges),
        edges_in_range(n, edges),
        is_path(edges, path),
        1 <= k < path.len(),
    ensures
        ord.contains(path[0]),
        ord.contains(path[k]),
        position(ord, path[0]) < position(ord, path[k]),
    decreases k,
{
    let j = k - 1;
    assert(has_edge(edges, path[j], path[j + 1]));
    assert(path[j + 1] == path[k]);
    lemma_edge_points_forward(ord, n, edges, path[k - 1], path[k]);
    if k > 1 {
        lemma_path_points_forward(ord, n, edges, path, k - 1);
    }
}

/// A graph in which some node lies on a cycle has no topological order.
pub proof fn lemma_cycle_means_no_order(n: nat, edges: Seq<(usize, usize)>, v: usize)
    requires
        n <= usize::MAX + 1,
        edges_in_range(n, edges),
        on_cycle(edges, v),
    ensures
        !is_acyclic(n, edges),
{
    if is_acyclic(n, edges) {
        let ord = choose|ord: Seq<usize>| is_topological_order(ord, n, edges);
        let path = choose|path: Seq<usize>|
            #![trigger is_path(edges, path)]
            path.len() >= 2 && path[0] == v && path.last() == v && is_path(edges, path);
        lemma_path_points_forward(ord, n, edges, path, path.len() - 1);
        assert(path[path.len() - 1] == path.last());
    }
}

/// A node not yet taken whose incoming edges include one from another node not
/// yet taken: the source of the first such edge.
fn blocked_predecessor(n: usize, edges: &Vec<(usize, usize)>, done: &Vec<bool>, u: usize) -> (p: usize)
    requires
        edges_in_range(n as nat, edges@),
        done.len() == n,
        exists|e: int| 0 <= e < edges.len() && (#[trigger] edges@[e]).1 == u && !done@[edges@[e].0 as int],
    ensures
        p < n,
        !done@[p as int],
        has_edge(edges@, p, u),
{
    let mut e: usize = 0;
    while e < edges.len()
        invariant
            e <= edges.len(),
            edges_in_range(n as nat, edges@),
            done.len() == n,
            exists|f: int| e <= f < edges.len() && (#[trigger] edges@[f]).1 == u && !done@[edges@[f].0 as int],
        decreases edges.len() - e,
    {
        let (a, b) = edges[e];
        assert(edges@[e as int].0 < n);
        if b == u && !done[a] {
            assert(edges@[e as int] == (a, u));
            return a;
        }
        e = e + 1;
    }
    assert(false);
    0
}

/// A walk back along edges (each node entered by an edge from the next) that
/// returns to one of its nodes closes a cycle through that node.
proof fn lemma_walk_closes_cycle(edges: Seq<(usize, usize)>, walk: Seq<usize>, w: usize)
    requires
        walk.contains(w),
        forall|k: int| 0 <= k < walk.len() - 1 ==> #[trigger] has_edge(edges, walk[k + 1], walk[k]),
        has_edge(edges, w, walk.last()),
    ensures
        on_cycle(edges, w),
{
    let l = walk.len() as int;
    let i = choose|i: int| 0 <= i < l && walk[i] == w;
    let c = Seq::new((l - i + 1) as nat, |t: int| if t == 0 { w } else { walk[l - t] });
    assert forall|k: int| 0 <= k < c.len() - 1 implies #[trigger] has_edge(edges, c[k], c[k + 1]) by {
        if k == 0 {
            assert(c[1] == walk.last());
        } else {
            assert(c[k] == walk[l - k]);
            assert(c[k + 1] == walk[l - k - 1]);
            assert(has_edge(edges, walk[(l - k - 1) + 1], walk[l - k - 1]));
        }
    }
    assert(is_path(edges, c));
    assert(c.last() == walk[i]);
}

/// Walks from `v` back along edges from nodes not yet taken until a node
/// repeats; that node lies on a cycle.
fn node_on_cycle(n: usize, edges: &Vec<(usize, usize)>, done: &Vec<bool>, v: usize) -> (c: usize)
    requires
        edges_in_range(n as nat, edges@),
        done.len() == n,
        v < n,
        !done@[v as int],
        forall|u: usize|
            u < n && !done@[u as int] ==> exists|e: int|
                0 <= e < edges.len() && (#[trigger] edges@[e]).1 == u && !done@[edges@[e].0 as int],
    ensures
        c < n,
        on_cycle(edges@, c),
{
    let mut visited: Vec<bool> = Vec::new();
    let mut i: usize = 0;
    while i < n
        invariant
            i <= n,
            visited.len() == i,
            forall|x: int| 0 <= x < i ==> !visited@[x],
        decreases n - i,
    {
        visited.push(false);
        i = i + 1;
    }
    let mut walk: Vec<usize> = Vec::new();
    let mut w = v;
    while !visited[w]
        invariant
            w < n,
            !done@[w as int],
            visited.len() == n,
            done.len() == n,
            edges_in_range(n as nat, edges@),
            forall|u: usize|
                u < n && !done@[u as int] ==> exists|e: int|
                    0 <= e < edges.len() && (#[trigger] edges@[e]).1 == u && !done@[edges@[e].0 as int],
            walk@.no_duplicates(),
            forall|k: int| 0 <= k < walk.len() ==> #[trigger] walk@[k] < n,
            forall|x: int| 0 <= x < n ==> (visited@[x] <==> walk@.contains(x as usize)),
            forall|k: int| 0 <= k < walk.len() - 1 ==> #[trigger] has_edge(edges@, walk@[k + 1], walk@[k]),
            walk.len() > 0 ==> has_edge(edges@, w, walk@.last()),
        decreases n - walk.len(),
    {
        assert(!walk@.contains(w));
        let ghost before = walk@;
        visited.set(w, true);
        walk.push(w);
        proof {
            lemma_distinct_nodes_len(walk@, n as nat);
            assert forall|x: int| 0 <= x < n implies (visited@[x] <==> walk@.contains(x as usize)) by {
                if x as usize != w && walk@.contains(x as usize) {
                    let k = choose|k: int| 0 <= k < walk@.len() && walk@[k] == x as usize;
                    assert(k < before.len());
                    assert(before[k] == x as usize);
                }
                if before.contains(x as usize) {
                    let k = choose|k: int| 0 <= k < before.len() && before[k] == x as usize;
                    assert(walk@[k] == x as usize);
                }
                if x as usize == w {
                    assert(walk@[walk@.len() - 1] == w);
                }
            }
            assert forall|k: int| 0 <= k < walk.len() - 1 implies #[trigger] has_edge(
                edges@,
                walk@[k + 1],
                walk@[k],
            ) by {
                if k < before.len() - 1 {
                    assert(walk@[k] == before[k] && walk@[k + 1] == before[k + 1]);
                } else {
                    assert(walk@[k] == before.last() && walk@[k + 1] == w);
                }
            }
        }
        w = blocked_predecessor(n, edges, done, w);
    }
    proof {
        assert(walk@.contains(w));
        lemma_walk_closes_cycle(edges@, walk@, w);
    }
    w
}

/// Kahn's algorithm over nodes `0..n`: repeatedly takes a node with no remaining
/// incoming edges, first those that start with none (in node order), then each
/// node as its last incoming edge is released (in edge order).
///
/// Returns the order in which the nodes were taken, or, when some node can never
/// be taken, a node that lies on a cycle: the first repeat on the walk back from
/// the smallest node left, along edges from nodes left.
pub fn kahn_order(n: usize, edges: &Vec<(usize, usize)>) -> (res: Result<Vec<usize>, usize>)
    requires
        edges_in_range(n as nat, edges@),
    ensures
        match res {
            Ok(ord) => is_topological_order(ord@, n as nat, edges@),
            Err(v) => {
                &&& v < n
                &&& on_cycle(edges@, v)
                &&& !is_acyclic(n as nat, edges@)
            },
        },
        res is Ok <==> is_acyclic(n as nat, edges@),
{
    let m = edges.len();
    let ghost no_done: Seq<bool> = Seq::new(n as nat, |i: int| false);

    // In-degree of every node.
    let mut indeg: Vec<usize> = Vec::new();
    let mut i: usize = 0;
    while i < n
        invariant
            i <= n,
            indeg.len() == i,
            forall|v: int| 0 <= v < i ==> indeg[v] == 0,
        decreases n - i,
    {
        indeg.push(0);
        i = i + 1;
    }
    let mut k: usize = 0;
    while k < m
        invariant
            k <= m,
            m == edges.len(),
            indeg.len() == n,
            edges_in_range(n as nat, edges@),
            no_done.len() == n,
            forall|v: int| 0 <= v < n ==> !no_done[v],
            forall|v: int| 0 <= v < n ==> indeg[v] == in_count(edges@, k as int, v as usize, no_done),
        decreases m - k,
    {
        let t = edges[k].1;
        proof {
            lemma_in_count_witness(edges@, k as int, t, no_done);
            assert(edges@[k as int].0 < n);
            assert(!no_done[edges@[k as int].0 as int]);
        }
        indeg.set(t, indeg[t] + 1);
        k = k + 1;
    }

    let mut done: Vec<bool> = Vec::new();
    let mut queue: Vec<usize> = Vec::new();
    let mut i: usize = 0;
    while i < n
        invariant
            i <= n,
            done.len() == i,
            indeg.len() == n,
            forall|v: int| 0 <= v < i ==> !done[v],
            queue@.no_duplicates(),
            forall|q: int| 0 <= q < queue.len() ==> queue[q] < i && indeg[queue[q] as int] == 0,
            forall|v: usize| v < i && indeg[v as int] == 0 ==> queue@.contains(v),
        decreases n - i,
    {
        done.push(false);
        if indeg[i] == 0 {
            queue.push(i);
        }
        i = i + 1;
    }
    assert(done@ =~= no_done);
    proof {
        assert forall|q: int, e: int|
            0 <= q < queue.len() && 0 <= e < edges.len() && edges@[e].1 == queue[q] implies exists|
                p: int,
            |
                0 <= p < q && queue[p] == edges@[e].0 by {
            lemma_in_count_witness(edges@, m as int, queue[q], no_done);
        }
    }

    let mut head: usize = 0;
    while head < queue.len()
        invariant
            m == edges.len(),
            edges_in_range(n as nat, edges@),
            indeg.len() == n,
            done.len() == n,
            head <= queue.len(),
            queue@.no_duplicates(),
            forall|q: int| 0 <= q < queue.len() ==> #[trigger] queue[q] < n,
            forall|q: int| 0 <= q < queue.len() ==> indeg[#[trigger] queue[q] as int] == 0,
            forall|v: usize| v < n ==> (done@[v as int] <==> queue@.subrange(0, head as int).contains(v)),
            forall|v: usize|
                v < n && !done@[v as int] && indeg[v as int] == 0 ==> queue@.subrange(
                    head as int,
                    queue.len() as int,
                ).contains(v),
            forall|v: int| 0 <= v < n ==> indeg[v] == in_count(edges@, m as int, v as usize, done@),
            forall|q: int, e: int|
                #![trigger queue[q], edges@[e]]
                0 <= q < queue.len() && 0 <= e < edges.len() && edges@[e].1 == queue[q] ==> exists|
                    p: int,
                |
                    0 <= p < q && queue[p] == edges@[e].0,
        decreases n - head,
    {
        proof {
            lemma_distinct_nodes_len(queue@, n as nat);
        }
        let x = queue[head];
        let ghost done_before = done@;
        assert(!done@[x as int]) by {
            if done@[x as int] {
                let p = choose|p: int| 0 <= p < head && queue@.subrange(0, head as int)[p] == x;
                assert(queue[p] == queue[head as int]);
            }
        }
        done.set(x, true);
        head = head + 1;
        assert(done@ == done_before.update(x as int, true));
        assert forall|v: usize| v < n implies (done@[v as int] <==> queue@.subrange(
            0,
            head as int,
        ).contains(v)) by {
            if v == x {
                assert(queue@.subrange(0, head as int)[head - 1] == x);
            } else {
                if queue@.subrange(0, head as int).contains(v) {
                    let p = choose|p: int| 0 <= p < head && queue@.subrange(0, head as int)[p] == v;
                    assert(p != head - 1);
                    assert(queue@.subrange(0, head - 1)[p] == v);
                }
                let ghost earlier = queue@.subrange(0, head - 1);
                if earlier.contains(v) {
                    let p = choose|p: int| 0 <= p < earlier.len() && earlier[p] == v;
                    assert(queue@.subrange(0, head as int)[p] == v);
                }
            }
        }

        let mut j: usize = 0;
        while j < m
            invariant
                0 <= j <= m,
                m == edges.len(),
                edges_in_range(n as nat, edges@),
                indeg.len() == n,
                done.len() == n,
                x < n,
                !done_before[x as int],
                done_before.len() == n,
                done@ == done_before.update(x as int, true),
                1 <= head <= queue.len(),
                queue[head - 1] == x,
                queue@.no_duplicates(),
                forall|q: int| 0 <= q < queue.len() ==> #[trigger] queue[q] < n,
                forall|q: int| 0 <= q < queue.len() ==> indeg[#[trigger] queue[q] as int] == 0,
                forall|v: usize|
                    v < n ==> (done@[v as int] <==> queue@.subrange(0, head as int).contains(v)),
                forall|v: usize|
                    v < n && !done@[v as int] && indeg[v as int] == 0 ==> queue@.subrange(
                        head as int,
                        queue.len() as int,
                    ).contains(v),
                forall|v: int|
                    0 <= v < n ==> indeg[v] + from_count(edges@, j as int, x, v as usize) == in_count(
                        edges@,
                        m as int,
                        v as usize,
                        done_before,
                    ),
                forall|q: int, e: int|
                    #![trigger queue[q], edges@[e]]
                    0 <= q < queue.len() && 0 <= e < edges.len() && edges@[e].1 == queue[q] ==> exists|
                        p: int,
                    |
                        0 <= p < q && queue[p] == edges@[e].0,
            decreases m - j,
        {
            let (s, t) = edges[j];
            if s == x {
                proof {
                    lemma_in_count_covers_from(edges@, m as int, t, done_before, x);
                    lemma_from_count_monotone(edges@, j as int + 1, m as int, x, t);
                }
                assert(indeg[t as int] >= 1);
                let ghost queue_before = queue@;
                indeg.set(t, indeg[t] - 1);
                if indeg[t] == 0 {
                    proof {
                        assert(from_count(edges@, j + 1, x, t) == from_count(edges@, j as int, x, t)
                            + 1);
                        lemma_in_count_done_update(edges@, m as int, t, done_before, x);
                        lemma_in_count_witness(edges@, m as int, t, done@);
                        assert(!queue@.contains(t));
                    }
                    queue.push(t);
                    proof {
                        assert(queue@.subrange(0, head as int) =~= queue_before.subrange(
                            0,
                            head as int,
                        ));
                        assert forall|q: int, e: int|
                            #![trigger queue[q], edges@[e]]
                            0 <= q < queue.len() && 0 <= e < edges.len() && edges@[e].1
                                == queue[q] implies exists|p: int|
                            0 <= p < q && queue[p] == edges@[e].0 by {
                            if q == queue.len() - 1 {
                                let u = edges@[e].0;
                                assert(edges@[e].0 < n);
                                assert(done@[u as int]);
                                assert(queue@.subrange(0, head as int).contains(u));
                                let p = choose|p: int|
                                    0 <= p < head && queue@.subrange(0, head as int)[p] == u;
                                assert(queue[p] == u);
                            } else {
                                assert(queue[q] == queue_before[q]);
                                let p = choose|p: int| 0 <= p < q && queue_before[p] == edges@[e].0;
                                assert(queue[p] == queue_before[p]);
                            }
                        }
                        assert forall|v: usize| v < n implies (done@[v as int] <==> queue@.subrange(
                            0,
                            head as int,
                        ).contains(v)) by {
                            assert(queue@.subrange(0, head as int) =~= queue_before.subrange(
                                0,
                                head as int,
                            ));
                        }
                        assert forall|v: usize|
                            v < n && !done@[v as int] && indeg[v as int] == 0 implies queue@.subrange(
                            head as int,
                            queue.len() as int,
                        ).contains(v) by {
                            if v == t {
                                assert(queue@.subrange(head as int, queue.len() as int)[queue.len()
                                    - 1 - head] == t);
                            } else {
                                let p = choose|p: int|
                                    0 <= p < queue_before.len() - head && queue_before.subrange(
                                        head as int,
                                        queue_before.len() as int,
                                    )[p] == v;
                                assert(queue@.subrange(head as int, queue.len() as int)[p] == v);
                            }
                        }
                    }
                } else {
                    proof {
                        assert forall|q: int| 0 <= q < queue.len() implies indeg[#[trigger] queue[q]
                            as int] == 0 by {
                            if queue[q] == t {
                            }
                        }
                    }
                }
            }
            j = j + 1;
        }
        proof {
            assert forall|v: int| 0 <= v < n implies indeg[v] == in_count(
                edges@,
                m as int,
                v as usize,
                done@,
            ) by {
                lemma_in_count_done_update(edges@, m as int, v as usize, done_before, x);
            }
        }
    }

    // Every node taken means an order was found; otherwise report the first one left.
    let mut v: usize = 0;
    while v < n
        invariant
            v <= n,
            done.len() == n,
            forall|u: int| 0 <= u < v ==> done@[u],
            m == edges.len(),
            edges_in_range(n as nat, edges@),
            indeg.len() == n,
            head == queue.len(),
            queue@.no_duplicates(),
            forall|q: int| 0 <= q < queue.len() ==> #[trigger] queue[q] < n,
            forall|u: usize| u < n ==> (done@[u as int] <==> queue@.subrange(0, head as int).contains(u)),
            forall|u: usize|
                u < n && !done@[u as int] && indeg[u as int] == 0 ==> queue@.subrange(
                    head as int,
                    queue.len() as int,
                ).contains(u),
            forall|u: int| 0 <= u < n ==> indeg[u] == in_count(edges@, m as int, u as usize, done@),
            forall|q: int, e: int|
                #![trigger queue[q], edges@[e]]
                0 <= q < queue.len() && 0 <= e < edges.len() && edges@[e].1 == queue[q] ==> exists|
                    p: int,
                |
                    0 <= p < q && queue[p] == edges@[e].0,
        decreases n - v,
    {
        if !done[v] {
            proof {
                let blocked = |u: usize| !done@[u as int];
                assert forall|u: usize| u < n && #[trigger] blocked(u) implies exists|e: int|
                    0 <= e < edges.len() && (#[trigger] edges@[e]).1 == u && blocked(
                        edges@[e].0,
                    ) by {
                    assert(queue@.subrange(head as int, queue.len() as int) =~= Seq::empty());
                    assert(indeg[u as int] > 0);
                    lemma_in_count_witness(edges@, m as int, u, done@);
                }
                lemma_blocked_set_means_cycle(n as nat, edges@, blocked, v);
                assert forall|u: usize|
                    u < n && !done@[u as int] implies exists|e: int|
                        0 <= e < edges.len() && (#[trigger] edges@[e]).1 == u && !done@[edges@[e].0 as int] by {
                    assert(blocked(u));
                }
            }
            let c = node_on_cycle(n, edges, &done, v);
            return Err(c);
        }
        v = v + 1;
    }
    proof {
        assert forall|u: usize| u < n implies queue@.contains(u) by {
            assert(done@[u as int]);
            let p = choose|p: int| 0 <= p < head && queue@.subrange(0, head as int)[p] == u;
            assert(queue[p] == u);
        }
        lemma_distinct_nodes_len(queue@, n as nat);
        assert(is_topological_order(queue@, n as nat, edges@));
    }
    Ok(queue)
}

} // verus!
