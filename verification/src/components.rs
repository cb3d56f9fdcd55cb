//! Connected components of an undirected graph given by its adjacency
//! matrix: each node labelled with the smallest node it is linked to.
use vstd::prelude::*;

verus! {

/// The rows of an adjacency matrix as sequences.
pub open spec fn rows(adj: Seq<Vec<bool>>) -> Seq<Seq<bool>> {
    adj.map_values(|r: Vec<bool>| r@)
}

/// A square, symmetric adjacency matrix.
pub open spec fn adj_ok(adj: Seq<Seq<bool>>) -> bool {
    &&& forall|i: int| 0 <= i < adj.len() ==> (#[trigger] adj[i]).len() == adj.len()
    &&& forall|i: int, j: int| 0 <= i < adj.len() && 0 <= j < adj.len() ==> #[trigger] adj[i][j] == adj[j][i]
}

/// Nodes `i` and `j` are joined by an edge.
pub open spec fn joined(adj: Seq<Seq<bool>>, i: int, j: int) -> bool {
    0 <= i < adj.len() && 0 <= j < adj.len() && adj[i][j]
}

/// A walk along edges.
pub open spec fn is_path(adj: Seq<Seq<bool>>, p: Seq<int>) -> bool {
    &&& p.len() >= 1
    &&& forall|k: int| 0 <= k < p.len() ==> 0 <= #[trigger] p[k] < adj.len()
    &&& forall|k: int| 0 <= k < p.len() - 1 ==> #[trigger] joined(adj, p[k], p[k + 1])
}

/// Nodes `i` and `j` lie in one component: a walk leads from one to the
/// other.
pub open spec fn reaches(adj: Seq<Seq<bool>>, i: int, j: int) -> bool {
    exists|p: Seq<int>| #[trigger] is_path(adj, p) && p[0] == i && p.last() == j
}

/// The smallest node in the component of node `i`.
pub open spec fn least_reached(adj: Seq<Seq<bool>>, i: int) -> int {
    choose|r: int| reaches(adj, i, r) && forall|k: int| #[trigger] reaches(adj, i, k) ==> r <= k
}

/// Every node reaches itself.
pub proof fn lemma_reaches_self(adj: Seq<Seq<bool>>, i: int)
    requires
        0 <= i < adj.len(),
    ensures
        reaches(adj, i, i),
{
    let p = seq![i];
    assert(is_path(adj, p));
}

/// An edge is a walk.
pub proof fn lemma_reaches_edge(adj: Seq<Seq<bool>>, i: int, j: int)
    requires
        joined(adj, i, j),
    ensures
        reaches(adj, i, j),
{
    let p = seq![i, j];
    assert(joined(adj, p[0], p[1]));
    assert(is_path(adj, p));
}

/// Walks join up: reaching is transitive.
pub proof fn lemma_reaches_trans(adj: Seq<Seq<bool>>, i: int, j: int, k: int)
    requires
        reaches(adj, i, j),
        reaches(adj, j, k),
    ensures
        reaches(adj, i, k),
{
    let p = choose|p: Seq<int>| #[trigger] is_path(adj, p) && p[0] == i && p.last() == j;
    let q = choose|q: Seq<int>| #[trigger] is_path(adj, q) && q[0] == j && q.last() == k;
    let w = p + q.drop_first();
    assert forall|m: int| 0 <= m < w.len() implies 0 <= #[trigger] w[m] < adj.len() by {
        if m >= p.len() {
            assert(w[m] == q[m - p.len() + 1]);
        }
    }
    assert forall|m: int| 0 <= m < w.len() - 1 implies #[trigger] joined(adj, w[m], w[m + 1]) by {
        if m < p.len() - 1 {
            assert(w[m] == p[m] && w[m + 1] == p[m + 1]);
        } else if m == p.len() - 1 {
            assert(w[m] == p.last());
            assert(w[m + 1] == q[1]);
            assert(joined(adj, q[0], q[1]));
        } else {
            let n = m - p.len() + 1;
            assert(w[m] == q[n] && w[m + 1] == q[n + 1]);
        }
    }
    assert(is_path(adj, w));
    if q.len() == 1 {
        assert(w.last() == p.last());
    } else {
        assert(w.last() == q.last());
    }
}

/// In an undirected graph a walk can be taken backwards.
pub proof fn lemma_reaches_symmetric(adj: Seq<Seq<bool>>, i: int, j: int)
    requires
        adj_ok(adj),
        reaches(adj, i, j),
    ensures
        reaches(adj, j, i),
{
    let p = choose|p: Seq<int>| #[trigger] is_path(adj, p) && p[0] == i && p.last() == j;
    let w = p.reverse();
    assert forall|m: int| 0 <= m < w.len() implies 0 <= #[trigger] w[m] < adj.len() by {
        assert(w[m] == p[p.len() - 1 - m]);
    }
    assert forall|m: int| 0 <= m < w.len() - 1 implies #[trigger] joined(adj, w[m], w[m + 1]) by {
        let a = p.len() - 2 - m;
        assert(w[m] == p[a + 1] && w[m + 1] == p[a]);
        assert(joined(adj, p[a], p[a + 1]));
        assert(adj[p[a]][p[a + 1]] == adj[p[a + 1]][p[a]]);
    }
    assert(is_path(adj, w));
}

/// Labels that agree across every edge agree along every walk.
proof fn lemma_path_labels(adj: Seq<Seq<bool>>, labels: Seq<usize>, p: Seq<int>)
    requires
        is_path(adj, p),
        labels.len() == adj.len(),
        forall|a: int, b: int| #[trigger] joined(adj, a, b) ==> labels[a] == labels[b],
    ensures
        labels[p[0]] == labels[p.last()],
    decreases p.len(),
{
    if p.len() > 1 {
        let q = p.drop_last();
        assert forall|m: int| 0 <= m < q.len() - 1 implies #[trigger] joined(adj, q[m], q[m + 1]) by {
            assert(q[m] == p[m] && q[m + 1] == p[m + 1]);
        }
        assert(is_path(adj, q));
        lemma_path_labels(adj, labels, q);
        let k = p.len() - 2;
        assert(joined(adj, p[k], p[k + 1]));
        assert(q.last() == p[k]);
    }
}

/// Labels naming, for each node, a reached node no larger than it, that
/// are fixed points.
pub open spec fn labels_sound(adj: Seq<Seq<bool>>, labels: Seq<usize>) -> bool {
    &&& labels.len() == adj.len()
    &&& forall|k: int|
        0 <= k < labels.len() ==> {
            &&& #[trigger] labels[k] <= k
            &&& labels[labels[k] as int] == labels[k]
            &&& reaches(adj, k, labels[k] as int)
        }
}

/// For each node, the smallest node of its component.
pub fn component_labels(adj: &Vec<Vec<bool>>) -> (labels: Vec<usize>)
    requires
        adj_ok(rows(adj@)),
    ensures
        labels@.len() == adj@.len(),
        forall|k: int| 0 <= k < adj@.len() ==> #[trigger] labels@[k] as int == least_reached(rows(adj@), k),
        forall|k: int| 0 <= k < adj@.len() ==> #[trigger] labels@[k] <= k && labels@[labels@[k] as int] == labels@[k],
{
    let ghost g = rows(adj@);
    let n = adj.len();
    let mut labels: Vec<usize> = Vec::new();
    let mut k: usize = 0;
    while k < n
        invariant
            k <= n == adj@.len() == g.len(),
            labels@.len() == k,
            forall|m: int| 0 <= m < k ==> #[trigger] labels@[m] == m,
        decreases n - k,
    {
        labels.push(k);
        k += 1;
    }
    assert forall|m: int| 0 <= m < n implies {
        &&& #[trigger] labels@[m] <= m
        &&& labels@[labels@[m] as int] == labels@[m]
        &&& reaches(g, m, labels@[m] as int)
    } by {
        lemma_reaches_self(g, m);
    }
    let mut i: usize = 0;
    while i < n
        invariant
            i <= n == adj@.len() == g.len(),
            g == rows(adj@),
            adj_ok(g),
            labels_sound(g, labels@),
            forall|a: int, b: int| 0 <= a < i && a < b < n && #[trigger] joined(g, a, b) ==> labels@[a] == labels@[b],
        decreases n - i,
    {
        let mut j: usize = i + 1;
        while j < n
            invariant
                i < n == adj@.len() == g.len(),
                i + 1 <= j <= n,
                g == rows(adj@),
                adj_ok(g),
                labels_sound(g, labels@),
                forall|a: int, b: int|
                    ((0 <= a < i && a < b < n) || (a == i && i < b < j)) && #[trigger] joined(g, a, b)
                        ==> labels@[a] == labels@[b],
            decreases n - j,
        {
            assert(g[i as int] == adj@[i as int]@);
            assert(g[i as int].len() == n);
            if adj[i][j] {
                let la = labels[i];
                let lb = labels[j];
                if la != lb {
                    let (lo, hi) = if la < lb {
                        (la, lb)
                    } else {
                        (lb, la)
                    };
                    proof {
                        assert(joined(g, i as int, j as int));
                        lemma_reaches_edge(g, i as int, j as int);
                        lemma_reaches_symmetric(g, i as int, la as int);
                        lemma_reaches_trans(g, la as int, i as int, j as int);
                        lemma_reaches_trans(g, la as int, j as int, lb as int);
                        if la < lb {
                            lemma_reaches_symmetric(g, la as int, lb as int);
                        }
                        assert(reaches(g, hi as int, lo as int));
                    }
                    let ghost before = labels@;
                    let mut m: usize = 0;
                    while m < n
                        invariant
                            m <= n == labels@.len() == before.len() == g.len(),
                            lo < hi < n,
                            before[hi as int] == hi,
                            before[lo as int] == lo,
                            reaches(g, hi as int, lo as int),
                            labels_sound(g, before),
                            forall|q: int| 0 <= q < m ==> #[trigger] labels@[q] == if before[q] == hi {
                                lo
                            } else {
                                before[q]
                            },
                            forall|q: int| m <= q < n ==> #[trigger] labels@[q] == before[q],
                        decreases n - m,
                    {
                        if labels[m] == hi {
                            labels.set(m, lo);
                        }
                        m += 1;
                    }
                    proof {
                        assert forall|q: int| 0 <= q < n implies {
                            &&& #[trigger] labels@[q] <= q
                            &&& labels@[labels@[q] as int] == labels@[q]
                            &&& reaches(g, q, labels@[q] as int)
                        } by {
                            assert(labels@[q] == if before[q] == hi { lo } else { before[q] });
                            if before[q] == hi {
                                lemma_reaches_trans(g, q, hi as int, lo as int);
                                assert(labels@[lo as int] == lo);
                            } else {
                                let l = before[q] as int;
                                assert(before[l] == l);
                                assert(labels@[l] == if before[l] == hi { lo } else { before[l] });
                            }
                        }
                        assert forall|a: int, b: int|
                            ((0 <= a < i && a < b < n) || (a == i && i < b < j + 1)) && #[trigger] joined(g, a, b)
                                implies labels@[a] == labels@[b] by {
                            assert(labels@[a] == if before[a] == hi { lo } else { before[a] });
                            assert(labels@[b] == if before[b] == hi { lo } else { before[b] });
                        }
                    }
                }
            }
            j += 1;
        }
        i += 1;
    }
    proof {
        assert forall|a: int, b: int| #[trigger] joined(g, a, b) implies labels@[a] == labels@[b] by {
            if a < b {
            } else if b < a {
                assert(g[a][b] == g[b][a]);
                assert(joined(g, b, a));
            } else {
            }
        }
        assert forall|k2: int| 0 <= k2 < adj@.len() implies #[trigger] labels@[k2] as int == least_reached(g, k2) by {
            let l = labels@[k2] as int;
            assert forall|k3: int| #[trigger] reaches(g, k2, k3) implies l <= k3 by {
                let p = choose|p: Seq<int>| #[trigger] is_path(g, p) && p[0] == k2 && p.last() == k3;
                lemma_path_labels(g, labels@, p);
                assert(labels@[k3] <= k3);
            }
            assert(reaches(g, k2, l));
            let r = least_reached(g, k2);
            assert(reaches(g, k2, r) && forall|k3: int| #[trigger] reaches(g, k2, k3) ==> r <= k3);
            assert(r <= l);
            assert(l <= r);
        }
    }
    labels
}

/// The nodes below `n` that are the smallest of their component, in order.
pub open spec fn leaders(adj: Seq<Seq<bool>>, n: int) -> Seq<int>
    decreases n,
{
    if n <= 0 {
        Seq::empty()
    } else if least_reached(adj, n - 1) == n - 1 {
        leaders(adj, n - 1).push(n - 1)
    } else {
        leaders(adj, n - 1)
    }
}

/// The nodes below `n` whose component's smallest node is `r`, in order.
pub open spec fn component_of(adj: Seq<Seq<bool>>, r: int, n: int) -> Seq<int>
    decreases n,
{
    if n <= 0 {
        Seq::empty()
    } else if least_reached(adj, n - 1) == r {
        component_of(adj, r, n - 1).push(n - 1)
    } else {
        component_of(adj, r, n - 1)
    }
}

/// The components: for each smallest node in increasing order, the nodes
/// of its component in increasing order.
pub open spec fn components(adj: Seq<Seq<bool>>) -> Seq<Seq<int>> {
    leaders(adj, adj.len() as int).map_values(|r: int| component_of(adj, r, adj.len() as int))
}

/// Position of node `k`'s component among the components: how many
/// smallest nodes lie below the smallest node of `k`'s component.
pub open spec fn component_index(adj: Seq<Seq<bool>>, k: int) -> int {
    leaders(adj, least_reached(adj, k)).len() as int
}

/// The positions of a vector of node numbers as integers.
pub open spec fn ints(s: Seq<usize>) -> Seq<int> {
    s.map_values(|k: usize| k as int)
}

/// The components of the graph (as `components` states them), and for each
/// node the position of its component.
pub fn find_components(adj: &Vec<Vec<bool>>) -> (r: (Vec<Vec<usize>>, Vec<usize>))
    requires
        adj_ok(rows(adj@)),
    ensures
        r.0@.len() == components(rows(adj@)).len(),
        forall|i: int| 0 <= i < r.0@.len() ==> ints(#[trigger] r.0@[i]@) == components(rows(adj@))[i],
        r.1@.len() == adj@.len(),
        forall|k: int| 0 <= k < adj@.len() ==> #[trigger] r.1@[k] as int == component_index(rows(adj@), k),
{
    let ghost g = rows(adj@);
    let n = adj.len();
    let labels = component_labels(adj);
    let mut pos: Vec<usize> = Vec::new();
    let mut k: usize = 0;
    while k < n
        invariant
            k <= n,
            pos@.len() == k,
        decreases n - k,
    {
        pos.push(0);
        k += 1;
    }
    let mut comps: Vec<Vec<usize>> = Vec::new();
    let mut k: usize = 0;
    while k < n
        invariant
            k <= n == adj@.len() == g.len() == labels@.len() == pos@.len(),
            g == rows(adj@),
            forall|q: int| 0 <= q < n ==> #[trigger] labels@[q] as int == least_reached(g, q),
            comps@.len() == leaders(g, k as int).len(),
            comps@.len() <= k,
            forall|i: int| 0 <= i < comps@.len() ==> ints(#[trigger] comps@[i]@) == component_of(
                g,
                leaders(g, k as int)[i],
                n as int,
            ),
            forall|j: int| 0 <= j < k && labels@[j] == j ==> #[trigger] pos@[j] as int == leaders(g, j).len(),
        decreases n - k,
    {
        if labels[k] == k {
            let mut members: Vec<usize> = Vec::new();
            let mut m: usize = 0;
            while m < n
                invariant
                    m <= n == labels@.len(),
                    k < n,
                    forall|q: int| 0 <= q < n ==> #[trigger] labels@[q] as int == least_reached(g, q),
                    ints(members@) == component_of(g, k as int, m as int),
                decreases n - m,
            {
                if labels[m] == k {
                    members.push(m);
                    assert(ints(members@) =~= component_of(g, k as int, m as int).push(m as int));
                }
                m += 1;
            }
            pos.set(k, comps.len());
            proof {
                assert(leaders(g, k + 1) == leaders(g, k as int).push(k as int));
            }
            comps.push(members);
        } else {
            assert(leaders(g, k + 1) == leaders(g, k as int));
        }
        k += 1;
    }
    let mut ids: Vec<usize> = Vec::new();
    let mut m: usize = 0;
    while m < n
        invariant
            m <= n == adj@.len() == g.len() == labels@.len() == pos@.len(),
            g == rows(adj@),
            forall|q: int| 0 <= q < n ==> #[trigger] labels@[q] as int == least_reached(g, q),
            forall|q: int| 0 <= q < n ==> #[trigger] labels@[q] <= q && labels@[labels@[q] as int] == labels@[q],
            forall|j: int| 0 <= j < n && labels@[j] == j ==> #[trigger] pos@[j] as int == leaders(g, j).len(),
            ids@.len() == m,
            forall|q: int| 0 <= q < m ==> #[trigger] ids@[q] as int == component_index(g, q),
        decreases n - m,
    {
        let l = labels[m];
        ids.push(pos[l]);
        m += 1;
    }
    (comps, ids)
}


/// The first node from `m` on that node `i` reaches (the node count when
/// there is none).
pub open spec fn first_reach(adj: Seq<Seq<bool>>, i: int, m: int) -> int
    decreases adj.len() - m,
{
    if m >= adj.len() {
        adj.len() as int
    } else if reaches(adj, i, m) {
        m
    } else {
        first_reach(adj, i, m + 1)
    }
}

proof fn lemma_first_reach(adj: Seq<Seq<bool>>, i: int, m: int)
    requires
        0 <= m,
    ensures
        m <= first_reach(adj, i, m) || m > adj.len(),
        first_reach(adj, i, m) <= adj.len(),
        first_reach(adj, i, m) < adj.len() ==> reaches(adj, i, first_reach(adj, i, m)),
        forall|k: int| m <= k < first_reach(adj, i, m) ==> !#[trigger] reaches(adj, i, k),
    decreases adj.len() - m,
{
    if m < adj.len() && !reaches(adj, i, m) {
        lemma_first_reach(adj, i, m + 1);
    }
}

/// Nodes a walk reaches lie within the graph.
proof fn lemma_reaches_range(adj: Seq<Seq<bool>>, i: int, k: int)
    requires
        reaches(adj, i, k),
    ensures
        0 <= k < adj.len(),
        0 <= i < adj.len(),
{
    let p = choose|p: Seq<int>| #[trigger] is_path(adj, p) && p[0] == i && p.last() == k;
    assert(0 <= p[p.len() - 1] < adj.len());
    assert(0 <= p[0] < adj.len());
}

/// The smallest node of `i`'s component is reached from `i`, lies at or
/// below `i`, and is below every other node reached.
pub proof fn lemma_least_reached(adj: Seq<Seq<bool>>, i: int)
    requires
        0 <= i < adj.len(),
    ensures
        reaches(adj, i, least_reached(adj, i)),
        0 <= least_reached(adj, i) <= i,
        forall|k: int| #[trigger] reaches(adj, i, k) ==> least_reached(adj, i) <= k,
{
    lemma_reaches_self(adj, i);
    lemma_first_reach(adj, i, 0);
    let f = first_reach(adj, i, 0);
    assert(f <= i) by {
        if f > i {
            assert(!reaches(adj, i, i));
        }
    }
    assert forall|k: int| #[trigger] reaches(adj, i, k) implies f <= k by {
        lemma_reaches_range(adj, i, k);
    }
    assert(reaches(adj, i, f) && forall|k: int| #[trigger] reaches(adj, i, k) ==> f <= k);
    let r = least_reached(adj, i);
    assert(reaches(adj, i, r) && forall|k: int| #[trigger] reaches(adj, i, k) ==> r <= k);
    assert(r <= f);
    assert(f <= r);
}

/// Two nodes have the same smallest node exactly when one reaches the
/// other.
pub proof fn lemma_same_least(adj: Seq<Seq<bool>>, a: int, b: int)
    requires
        adj_ok(adj),
        0 <= a < adj.len(),
        0 <= b < adj.len(),
    ensures
        (least_reached(adj, a) == least_reached(adj, b)) <==> reaches(adj, a, b),
{
    lemma_least_reached(adj, a);
    lemma_least_reached(adj, b);
    let ra = least_reached(adj, a);
    let rb = least_reached(adj, b);
    if ra == rb {
        lemma_reaches_symmetric(adj, b, rb);
        lemma_reaches_trans(adj, a, ra, b);
    }
    if reaches(adj, a, b) {
        lemma_reaches_trans(adj, a, b, rb);
        lemma_reaches_symmetric(adj, a, b);
        lemma_reaches_trans(adj, b, a, ra);
        assert(ra <= rb);
        assert(rb <= ra);
    }
}

/// A node is a leader (the smallest of its component) exactly when its
/// smallest reached node is itself.
proof fn lemma_leaders(adj: Seq<Seq<bool>>, m: int)
    ensures
        forall|x: int| #[trigger] leaders(adj, m).contains(x) <==> (0 <= x < m && least_reached(adj, x) == x),
        forall|a: int, b: int| 0 <= a < b < leaders(adj, m).len() ==> #[trigger] leaders(adj, m)[a] < #[trigger] leaders(adj, m)[b],
        forall|a: int| 0 <= a < leaders(adj, m).len() ==> 0 <= #[trigger] leaders(adj, m)[a] < m,
    decreases m,
{
    if m > 0 {
        lemma_leaders(adj, m - 1);
        let pre = leaders(adj, m - 1);
        let cur = leaders(adj, m);
        assert forall|x: int| #[trigger] cur.contains(x) <==> (0 <= x < m && least_reached(adj, x) == x) by {
            if cur.contains(x) {
                let w = choose|w: int| 0 <= w < cur.len() && cur[w] == x;
                if w < pre.len() {
                    assert(cur[w] == pre[w]);
                    assert(pre.contains(x));
                }
            }
            if 0 <= x < m && least_reached(adj, x) == x {
                if x < m - 1 {
                    assert(pre.contains(x));
                    let w = choose|w: int| 0 <= w < pre.len() && pre[w] == x;
                    assert(cur[w] == x);
                } else {
                    assert(cur[cur.len() - 1] == x);
                }
            }
        }
        assert forall|a: int, b: int| 0 <= a < b < cur.len() implies #[trigger] cur[a] < #[trigger] cur[b] by {
            if b < pre.len() {
                assert(cur[a] == pre[a] && cur[b] == pre[b]);
            } else {
                assert(cur[a] == pre[a]);
            }
        }
        assert forall|a: int| 0 <= a < cur.len() implies 0 <= #[trigger] cur[a] < m by {
            if a < pre.len() {
                assert(cur[a] == pre[a]);
            }
        }
    }
}

/// The nodes of the component led by `r` are those whose smallest reached
/// node is `r`.
proof fn lemma_component_of(adj: Seq<Seq<bool>>, r: int, n: int)
    ensures
        forall|x: int| #[trigger] component_of(adj, r, n).contains(x) <==> (0 <= x < n && least_reached(adj, x) == r),
    decreases n,
{
    if n > 0 {
        lemma_component_of(adj, r, n - 1);
        let pre = component_of(adj, r, n - 1);
        let cur = component_of(adj, r, n);
        assert forall|x: int| #[trigger] cur.contains(x) <==> (0 <= x < n && least_reached(adj, x) == r) by {
            if cur.contains(x) {
                let w = choose|w: int| 0 <= w < cur.len() && cur[w] == x;
                if w < pre.len() {
                    assert(cur[w] == pre[w]);
                    assert(pre.contains(x));
                }
            }
            if 0 <= x < n && least_reached(adj, x) == r {
                if x < n - 1 {
                    assert(pre.contains(x));
                    let w = choose|w: int| 0 <= w < pre.len() && pre[w] == x;
                    assert(cur[w] == x);
                } else {
                    assert(cur[cur.len() - 1] == x);
                }
            }
        }
    }
}

proof fn lemma_leaders_prefix(adj: Seq<Seq<bool>>, m: int, n: int)
    requires
        m <= n,
    ensures
        leaders(adj, m).len() <= leaders(adj, n).len(),
        forall|a: int| 0 <= a < leaders(adj, m).len() ==> #[trigger] leaders(adj, n)[a] == leaders(adj, m)[a],
    decreases n - m,
{
    if m < n {
        lemma_leaders_prefix(adj, m, n - 1);
        if n > 0 {
            let pre = leaders(adj, n - 1);
            assert forall|a: int| 0 <= a < leaders(adj, m).len() implies #[trigger] leaders(adj, n)[a] == leaders(adj, m)[a] by {
                assert(leaders(adj, n)[a] == pre[a]);
            }
        }
    }
}

/// Law: the components partition the nodes. Node `k` lies in the component
/// at `component_index(adj, k)` and in no other.
pub proof fn lemma_components_partition(adj: Seq<Seq<bool>>, k: int)
    requires
        adj_ok(adj),
        0 <= k < adj.len(),
    ensures
        0 <= component_index(adj, k) < components(adj).len(),
        components(adj)[component_index(adj, k)].contains(k),
        forall|c: int| 0 <= c < components(adj).len() && (#[trigger] components(adj)[c]).contains(k) ==> c == component_index(adj, k),
{
    let n = adj.len() as int;
    lemma_least_reached(adj, k);
    let r = least_reached(adj, k);
    lemma_least_reached(adj, r);
    lemma_same_least(adj, k, r);
    assert(least_reached(adj, r) == r);
    lemma_leaders(adj, r + 1);
    lemma_leaders(adj, n);
    lemma_leaders_prefix(adj, r + 1, n);
    let c = component_index(adj, k);
    assert(leaders(adj, r + 1) == leaders(adj, r).push(r));
    assert(leaders(adj, n)[c] == r);
    lemma_component_of(adj, r, n);
    assert(components(adj)[c] == component_of(adj, r, n));
    assert forall|c2: int| 0 <= c2 < components(adj).len() && (#[trigger] components(adj)[c2]).contains(k) implies c2 == c by {
        let r2 = leaders(adj, n)[c2];
        lemma_component_of(adj, r2, n);
        assert(components(adj)[c2] == component_of(adj, r2, n));
        assert(r2 == r);
        if c2 < c {
            assert(leaders(adj, n)[c2] < leaders(adj, n)[c]);
        } else if c2 > c {
            assert(leaders(adj, n)[c] < leaders(adj, n)[c2]);
        }
    }
}

/// Law: two nodes lie in the same component exactly when a walk along
/// edges joins them.
pub proof fn lemma_components_linked(adj: Seq<Seq<bool>>, a: int, b: int)
    requires
        adj_ok(adj),
        0 <= a < adj.len(),
        0 <= b < adj.len(),
    ensures
        (component_index(adj, a) == component_index(adj, b)) <==> reaches(adj, a, b),
{
    let n = adj.len() as int;
    lemma_same_least(adj, a, b);
    lemma_least_reached(adj, a);
    lemma_least_reached(adj, b);
    let ra = least_reached(adj, a);
    let rb = least_reached(adj, b);
    if ra != rb {
        lemma_same_least(adj, a, ra);
        lemma_same_least(adj, b, rb);
        lemma_least_reached(adj, ra);
        lemma_least_reached(adj, rb);
        lemma_leaders(adj, n);
        lemma_leaders(adj, ra + 1);
        lemma_leaders(adj, rb + 1);
        lemma_leaders_prefix(adj, ra + 1, n);
        lemma_leaders_prefix(adj, rb + 1, n);
        assert(leaders(adj, ra + 1) == leaders(adj, ra).push(ra));
        assert(leaders(adj, rb + 1) == leaders(adj, rb).push(rb));
        let ca = component_index(adj, a);
        let cb = component_index(adj, b);
        assert(leaders(adj, n)[ca] == ra);
        assert(leaders(adj, n)[cb] == rb);
    }
}

proof fn lemma_component_of_order(adj: Seq<Seq<bool>>, r: int, n: int)
    ensures
        forall|a: int, b: int| 0 <= a < b < component_of(adj, r, n).len() ==> #[trigger] component_of(adj, r, n)[a]
            < #[trigger] component_of(adj, r, n)[b],
        forall|a: int| 0 <= a < component_of(adj, r, n).len() ==> 0 <= #[trigger] component_of(adj, r, n)[a] < n,
    decreases n,
{
    if n > 0 {
        lemma_component_of_order(adj, r, n - 1);
        let pre = component_of(adj, r, n - 1);
        let cur = component_of(adj, r, n);
        assert forall|a: int| 0 <= a < cur.len() implies 0 <= #[trigger] cur[a] < n by {
            if a < pre.len() {
                assert(cur[a] == pre[a]);
            }
        }
        assert forall|a: int, b: int| 0 <= a < b < cur.len() implies #[trigger] cur[a] < #[trigger] cur[b] by {
            assert(cur[a] == pre[a]);
            if b < pre.len() {
                assert(cur[b] == pre[b]);
            }
        }
    }
}

/// Law: each component lists its nodes in increasing order, starting with
/// its smallest node, and the components come in increasing order of
/// their smallest nodes.
pub proof fn lemma_components_ordered(adj: Seq<Seq<bool>>)
    ensures
        forall|c: int, a: int, b: int|
            0 <= c < components(adj).len() && 0 <= a < b < components(adj)[c].len() ==> #[trigger] components(
                adj,
            )[c][a] < #[trigger] components(adj)[c][b],
        forall|c: int| 0 <= c < components(adj).len() ==> (#[trigger] components(adj)[c]).len() > 0,
        forall|c: int, d: int|
            0 <= c < d < components(adj).len() ==> #[trigger] components(adj)[c][0] < #[trigger] components(
                adj,
            )[d][0],
{
    let n = adj.len() as int;
    let ls = leaders(adj, n);
    lemma_leaders(adj, n);
    assert forall|c: int| 0 <= c < components(adj).len() implies (#[trigger] components(adj)[c]).len() > 0
        && components(adj)[c][0] == ls[c] by {
        let r = ls[c];
        assert(ls.contains(r));
        lemma_component_of(adj, r, n);
        lemma_component_of_order(adj, r, n);
        let comp = component_of(adj, r, n);
        assert(components(adj)[c] == comp);
        assert(comp.contains(r));
        let x0 = comp[0];
        assert(comp.contains(x0));
        lemma_least_reached(adj, x0);
        let w = choose|w: int| 0 <= w < comp.len() && comp[w] == r;
        if w > 0 {
            assert(comp[0] < comp[w]);
        }
    }
    assert forall|c: int, a: int, b: int|
        0 <= c < components(adj).len() && 0 <= a < b < components(adj)[c].len() implies #[trigger] components(
            adj,
        )[c][a] < #[trigger] components(adj)[c][b] by {
        lemma_component_of_order(adj, ls[c], n);
        assert(components(adj)[c] == component_of(adj, ls[c], n));
    }
    assert forall|c: int, d: int| 0 <= c < d < components(adj).len() implies #[trigger] components(adj)[c][0]
        < #[trigger] components(adj)[d][0] by {
        assert(components(adj)[c][0] == ls[c]);
        assert(components(adj)[d][0] == ls[d]);
    }
}

} // verus!
