use vstd::prelude::*;
use vstd::set_lib::{lemma_len_subset, range_set_properties, FiniteRange};

verus! {

/// The adjacency lists of `g` as sequences.
pub open spec fn adj_view(g: Seq<Vec<usize>>) -> Seq<Seq<usize>> {
    g.map_values(|a: Vec<usize>| a@)
}

/// Every neighbour listed in `g` is a vertex of `g`.
pub open spec fn graph_wf(g: Seq<Seq<usize>>) -> bool {
    forall|u: int, k: int| 0 <= u < g.len() && 0 <= k < g[u].len() ==> #[trigger] g[u][k] < g.len()
}

/// There is a directed edge from `u` to `v` in `g`.
pub open spec fn has_edge(g: Seq<Seq<usize>>, u: usize, v: usize) -> bool {
    u < g.len() && g[u as int].contains(v)
}

/// `p` is a walk in `g` that starts at `s` and ends at `t`.
pub open spec fn is_path(g: Seq<Seq<usize>>, p: Seq<usize>, s: usize, t: usize) -> bool {
    &&& p.len() >= 1
    &&& p[0] == s
    &&& p.last() == t
    &&& forall|i: int| 0 <= i < p.len() - 1 ==> #[trigger] has_edge(g, p[i], p[i + 1])
}

/// `t` can be reached from `s` by following edges of `g`.
pub open spec fn reachable(g: Seq<Seq<usize>>, s: usize, t: usize) -> bool {
    exists|p: Seq<usize>| is_path(g, p, s, t)
}

/// The vertex `v` has been discovered: it has a parent.
spec fn discovered(parent: Seq<usize>, v: usize) -> bool {
    parent[v as int] < parent.len()
}

/// The parent and level tables form a breadth-first tree rooted at `s`.
spec fn bfs_tree(g: Seq<Seq<usize>>, s: usize, parent: Seq<usize>, level: Seq<usize>) -> bool {
    &&& parent.len() == g.len()
    &&& level.len() == g.len()
    &&& s < g.len()
    &&& parent[s as int] == s
    &&& level[s as int] == 0
    &&& forall|v: usize|
        #![trigger parent[v as int]]
        v < g.len() && v != s && discovered(parent, v) ==> {
            &&& discovered(parent, parent[v as int])
            &&& level[v as int] == level[parent[v as int] as int] + 1
            &&& has_edge(g, parent[v as int], v)
        }
}

/// Every walk from `s` to `x` in `g` has at least `l` edges.
pub open spec fn no_shorter_walk(g: Seq<Seq<usize>>, s: usize, x: usize, l: int) -> bool {
    forall|q: Seq<usize>| #[trigger] is_path(g, q, s, x) ==> q.len() - 1 >= l
}

/// Levels do not decrease along the queue.
spec fn levels_sorted(queue: Seq<usize>, level: Seq<usize>) -> bool {
    forall|i: int, j: int|
        0 <= i <= j < queue.len() ==> #[trigger] level[queue[i] as int] <= #[trigger] level[queue[j] as int]
}

/// No queued level exceeds the level of the vertex at `head` by more than one.
spec fn levels_span(queue: Seq<usize>, level: Seq<usize>, head: int) -> bool {
    head < queue.len() ==> forall|j: int| 0 <= j < queue.len() ==> #[trigger] level[queue[j] as int] <= level[queue[head] as int] + 1
}

/// The level of each discovered vertex is a lower bound on the walks that reach it.
spec fn levels_exact(g: Seq<Seq<usize>>, s: usize, parent: Seq<usize>, level: Seq<usize>) -> bool {
    forall|x: usize| x < g.len() && discovered(parent, x) ==> #[trigger] no_shorter_walk(g, s, x, level[x as int] as int)
}

/// Every vertex with a walk shorter than the level at `head` has been processed.
spec fn short_walks_processed(g: Seq<Seq<usize>>, s: usize, queue: Seq<usize>, level: Seq<usize>, head: int) -> bool {
    head < queue.len() ==> forall|q: Seq<usize>, y: usize|
        #[trigger] is_path(g, q, s, y) && q.len() - 1 < level[queue[head] as int] ==> queue.subrange(0, head).contains(y)
}

/// A prefix of a walk is a walk.
proof fn lemma_walk_prefix(g: Seq<Seq<usize>>, q: Seq<usize>, s: usize, y: usize, k: int)
    requires
        is_path(g, q, s, y),
        0 <= k < q.len(),
    ensures
        is_path(g, q.subrange(0, k + 1), s, q[k]),
{
    let r = q.subrange(0, k + 1);
    assert forall|i: int| 0 <= i < r.len() - 1 implies #[trigger] has_edge(g, r[i], r[i + 1]) by {
        assert(r[i] == q[i] && r[i + 1] == q[i + 1]);
        assert(has_edge(g, q[i], q[i + 1]));
    }
}

/// A vertex first met from the vertex at `head` has no walk shorter than one
/// step past that vertex's level.
proof fn lemma_new_level(g: Seq<Seq<usize>>, s: usize, parent: Seq<usize>, level: Seq<usize>, queue: Seq<usize>, head: int, v: usize)
    requires
        parent.len() == g.len(),
        0 <= head < queue.len(),
        discovered(parent, s),
        !discovered(parent, v),
        has_edge(g, queue[head], v),
        short_walks_processed(g, s, queue, level, head),
        forall|j: int, w: usize| 0 <= j < head && #[trigger] has_edge(g, queue[j], w) ==> discovered(parent, w),
    ensures
        no_shorter_walk(g, s, v, level[queue[head] as int] + 1),
{
    assert forall|q: Seq<usize>| #[trigger] is_path(g, q, s, v) implies q.len() - 1 >= level[queue[head] as int] + 1 by {
        if q.len() - 1 <= level[queue[head] as int] {
            if q.len() == 1 {
                assert(q[0] == s);
            } else {
                let k = q.len() - 2;
                lemma_walk_prefix(g, q, s, v, k);
                let y = q[k];
                assert(is_path(g, q.subrange(0, k + 1), s, y));
                let pre = queue.subrange(0, head);
                assert(pre.contains(y));
                let j = pre.index_of(y);
                assert(queue[j] == y);
                assert(has_edge(g, q[k], q[k + 1]));
            }
        }
    }
}

/// Moving `head` past a processed vertex keeps every short walk processed.
proof fn lemma_advance(g: Seq<Seq<usize>>, s: usize, parent: Seq<usize>, level: Seq<usize>, queue: Seq<usize>, head: int)
    requires
        parent.len() == g.len(),
        level.len() == g.len(),
        graph_wf(g),
        0 <= head,
        head + 1 < queue.len(),
        queue[0] == s,
        levels_sorted(queue, level),
        levels_span(queue, level, head),
        levels_exact(g, s, parent, level),
        short_walks_processed(g, s, queue, level, head),
        forall|v: usize| v < g.len() && discovered(parent, v) ==> #[trigger] queue.contains(v),
        forall|j: int, w: usize| 0 <= j <= head && #[trigger] has_edge(g, queue[j], w) ==> discovered(parent, w),
        forall|j: int| 0 <= j < queue.len() ==> #[trigger] queue[j] < g.len(),
    ensures
        short_walks_processed(g, s, queue, level, head + 1),
{
    let lu = level[queue[head] as int];
    let ln = level[queue[head + 1] as int];
    assert(lu <= ln);
    assert(ln <= lu + 1);
    assert forall|q: Seq<usize>, y: usize| #[trigger] is_path(g, q, s, y) && q.len() - 1 < ln implies queue.subrange(0, head + 1).contains(y) by {
        let pre = queue.subrange(0, head);
        let pre1 = queue.subrange(0, head + 1);
        if q.len() - 1 < lu {
            assert(pre.contains(y));
            let j = pre.index_of(y);
            assert(pre1[j] == y);
        } else if q.len() == 1 {
            assert(y == s);
            assert(pre1[0] == s);
        } else {
            let k = q.len() - 2;
            lemma_walk_prefix(g, q, s, y, k);
            let z = q[k];
            assert(is_path(g, q.subrange(0, k + 1), s, z));
            assert(pre.contains(z));
            let jz = pre.index_of(z);
            assert(queue[jz] == z);
            assert(has_edge(g, q[k], q[k + 1]));
            assert(q[k + 1] == y);
            assert(has_edge(g, queue[jz], y));
            let kk = choose|kk: int| 0 <= kk < g[z as int].len() && g[z as int][kk] == y;
            assert(g[z as int][kk] < g.len());
            assert(discovered(parent, y));
            assert(queue.contains(y));
            let jy = queue.index_of(y);
            assert(queue[jy] == y);
            assert(no_shorter_walk(g, s, y, level[y as int] as int));
            assert(level[y as int] <= q.len() - 1);
            if jy > head {
                assert(level[queue[head + 1] as int] <= level[queue[jy] as int]);
            }
            assert(pre1[jy] == y);
        }
    }
}

proof fn lemma_distinct_bounded(q: Seq<usize>, n: usize)
    requires
        q.no_duplicates(),
        forall|i: int| 0 <= i < q.len() ==> #[trigger] q[i] < n,
    ensures
        q.len() <= n,
{
    q.unique_seq_to_set();
    let r = <usize as FiniteRange>::range_set(0, n);
    range_set_properties::<usize>(0, n);
    assert(q.to_set().subset_of(r));
    lemma_len_subset(q.to_set(), r);
}

/// Every vertex of a walk from a vertex of a closed set stays in the set.
proof fn lemma_closed_reach(g: Seq<Seq<usize>>, parent: Seq<usize>, p: Seq<usize>, s: usize, t: usize, k: int)
    requires
        parent.len() == g.len(),
        is_path(g, p, s, t),
        discovered(parent, s),
        forall|u: usize, w: usize|
            u < g.len() && discovered(parent, u) && #[trigger] has_edge(g, u, w) ==> w < g.len() && discovered(parent, w),
        0 <= k < p.len(),
        s < g.len(),
    ensures
        p[k] < g.len() && discovered(parent, p[k]),
    decreases k,
{
    if k > 0 {
        lemma_closed_reach(g, parent, p, s, t, k - 1);
        let i = k - 1;
        assert(has_edge(g, p[i], p[i + 1]));
    }
}

/// Breadth-first search from `s`; stops as soon as `t` is discovered and
/// returns the parent and level of each discovered vertex.
fn bfs(g: &Vec<Vec<usize>>, s: usize, t: usize) -> (r: Option<(Vec<usize>, Vec<usize>)>)
    requires
        graph_wf(g@.map_values(|a: Vec<usize>| a@)),
        s < g.len(),
        t < g.len(),
    ensures
        match r {
            Some((parent, level)) => {
                &&& s != t
                &&& bfs_tree(g@.map_values(|a: Vec<usize>| a@), s, parent@, level@)
                &&& discovered(parent@, t)
                &&& no_shorter_walk(g@.map_values(|a: Vec<usize>| a@), s, t, level@[t as int] as int)
            },
            None => s == t || !reachable(g@.map_values(|a: Vec<usize>| a@), s, t),
        },
{
    let ghost gv = g@.map_values(|a: Vec<usize>| a@);
    let n = g.len();
    let mut parent: Vec<usize> = Vec::new();
    let mut level: Vec<usize> = Vec::new();
    let mut i: usize = 0;
    while i < n
        invariant
            i <= n,
            parent.len() == i,
            level.len() == i,
            forall|j: int| 0 <= j < i ==> parent[j] == n && level[j] == 0,
        decreases n - i,
    {
        parent.push(n);
        level.push(0);
        i = i + 1;
    }
    parent.set(s, s);
    let mut queue: Vec<usize> = Vec::new();
    queue.push(s);
    assert(queue@[0] == s);
    proof {
        assert forall|x: usize| x < gv.len() && discovered(parent@, x) implies #[trigger] no_shorter_walk(gv, s, x, level@[x as int] as int) by {
            assert(x == s);
        }
        assert(levels_sorted(queue@, level@));
    }
    let mut head: usize = 0;
    while head < queue.len()
        invariant
            n == g.len(),
            gv == g@.map_values(|a: Vec<usize>| a@),
            graph_wf(gv),
            s < n,
            t < n,
            bfs_tree(gv, s, parent@, level@),
            head <= queue.len(),
            queue@.no_duplicates(),
            forall|j: int| 0 <= j < queue.len() ==> #[trigger] queue[j] < n && discovered(parent@, queue[j]),
            forall|v: usize| v < n && discovered(parent@, v) ==> #[trigger] queue@.contains(v),
            forall|j: int, w: usize|
                0 <= j < head && #[trigger] has_edge(gv, queue[j], w) ==> discovered(parent@, w),
            s != t ==> !discovered(parent@, t),
            forall|v: usize| v < n && discovered(parent@, v) ==> #[trigger] level[v as int] < queue.len(),
            queue@[0] == s,
            levels_sorted(queue@, level@),
            levels_span(queue@, level@, head as int),
            levels_exact(gv, s, parent@, level@),
            short_walks_processed(gv, s, queue@, level@, head as int),
        decreases n - head,
    {
        proof {
            lemma_distinct_bounded(queue@, n);
        }
        let u = queue[head];
        let nbrs = &g[u];
        assert(nbrs@ == gv[u as int]);
        let mut k: usize = 0;
        while k < nbrs.len()
            invariant
                n == g.len(),
                gv == g@.map_values(|a: Vec<usize>| a@),
                graph_wf(gv),
                s < n,
                t < n,
                u < n,
                u == queue[head as int],
                discovered(parent@, u),
                nbrs@ == gv[u as int],
                bfs_tree(gv, s, parent@, level@),
                head < queue.len(),
                k <= nbrs.len(),
                queue@.no_duplicates(),
                forall|j: int| 0 <= j < queue.len() ==> #[trigger] queue[j] < n && discovered(parent@, queue[j]),
                forall|v: usize| v < n && discovered(parent@, v) ==> #[trigger] queue@.contains(v),
                forall|j: int, w: usize|
                    0 <= j < head && #[trigger] has_edge(gv, queue[j], w) ==> discovered(parent@, w),
                forall|m: int| 0 <= m < k ==> discovered(parent@, #[trigger] nbrs@[m]),
                s != t ==> !discovered(parent@, t),
                forall|v: usize| v < n && discovered(parent@, v) ==> #[trigger] level[v as int] < queue.len(),
                queue@[0] == s,
                levels_sorted(queue@, level@),
                levels_span(queue@, level@, head as int),
                levels_exact(gv, s, parent@, level@),
                short_walks_processed(gv, s, queue@, level@, head as int),
            decreases nbrs.len() - k,
        {
            let v = nbrs[k];
            assert(v < n);
            if parent[v] >= n {
                proof {
                    lemma_distinct_bounded(queue@, n);
                    assert(!queue@.contains(v));
                }
                let lu = level[u];
                let ghost old_q = queue@;
                let ghost old_parent = parent@;
                let ghost old_level = level@;
                proof {
                    assert(nbrs@[k as int] == v);
                    assert(has_edge(gv, queue[head as int], v));
                    lemma_new_level(gv, s, parent@, level@, queue@, head as int, v);
                }
                parent.set(v, u);
                level.set(v, lu + 1);
                queue.push(v);
                proof {
                    assert(queue@[queue.len() - 1] == v);
                    assert(level@[u as int] == lu);
                    assert forall|j: int| 0 <= j < old_q.len() implies #[trigger] level@[queue@[j] as int] == old_level[old_q[j] as int] by {
                        assert(queue@[j] == old_q[j]);
                        assert(old_q[j] != v);
                    }
                    assert(levels_sorted(queue@, level@)) by {
                        assert forall|a: int, b: int| 0 <= a <= b < queue.len() implies #[trigger] level@[queue@[a] as int] <= #[trigger] level@[queue@[b] as int] by {
                            if b == old_q.len() {
                                if a < old_q.len() {
                                    assert(old_level[old_q[a] as int] <= old_level[old_q[head as int] as int] + 1);
                                }
                            } else {
                                assert(old_level[old_q[a] as int] <= old_level[old_q[b] as int]);
                            }
                        }
                    }
                    assert(levels_span(queue@, level@, head as int)) by {
                        assert forall|a: int| 0 <= a < queue.len() implies #[trigger] level@[queue@[a] as int] <= level@[queue@[head as int] as int] + 1 by {
                            if a < old_q.len() {
                                assert(old_level[old_q[a] as int] <= old_level[old_q[head as int] as int] + 1);
                            }
                        }
                    }
                    assert(levels_exact(gv, s, parent@, level@)) by {
                        assert forall|x: usize| x < gv.len() && discovered(parent@, x) implies #[trigger] no_shorter_walk(gv, s, x, level@[x as int] as int) by {
                            if x != v {
                                assert(discovered(old_parent, x));
                                assert(no_shorter_walk(gv, s, x, old_level[x as int] as int));
                            }
                        }
                    }
                    assert(queue@.subrange(0, head as int) =~= old_q.subrange(0, head as int));
                    assert(short_walks_processed(gv, s, queue@, level@, head as int));
                    assert forall|x: usize| x < n && discovered(parent@, x) implies #[trigger] queue@.contains(x) by {
                        if x != v {
                            assert(discovered(old_parent, x));
                            assert(old_q.contains(x));
                            let j = old_q.index_of(x);
                            assert(queue@[j] == x);
                        }
                    }
                    assert forall|m: int| 0 <= m <= k implies discovered(parent@, #[trigger] nbrs@[m]) by {
                        if m < k {
                            assert(discovered(old_parent, nbrs@[m]));
                        }
                    }
                }
                if v == t {
                    return Some((parent, level));
                }
            }
            k = k + 1;
        }
        proof {
            assert forall|j: int, w: usize| 0 <= j <= head && #[trigger] has_edge(gv, queue[j], w) implies discovered(parent@, w) by {
                if j == head {
                    let m = nbrs@.index_of(w);
                    assert(nbrs@[m] == w);
                }
            }
            if head + 1 < queue.len() {
                lemma_advance(gv, s, parent@, level@, queue@, head as int);
                assert(levels_span(queue@, level@, head + 1)) by {
                    assert forall|a: int| 0 <= a < queue.len() implies #[trigger] level@[queue@[a] as int] <= level@[queue@[head + 1] as int] + 1 by {
                        assert(level@[queue@[a] as int] <= level@[queue@[head as int] as int] + 1);
                        assert(level@[queue@[head as int] as int] <= level@[queue@[head + 1] as int]);
                    }
                }
            }
        }
        head = head + 1;
    }
    proof {
        if s != t && reachable(gv, s, t) {
            let p = choose|p: Seq<usize>| is_path(gv, p, s, t);
            assert forall|x: usize, w: usize|
                x < gv.len() && discovered(parent@, x) && #[trigger] has_edge(gv, x, w) implies w < gv.len()
                    && discovered(parent@, w) by {
                assert(queue@.contains(x));
                let j = queue@.index_of(x);
                assert(queue@[j] == x);
                let kk = choose|kk: int| 0 <= kk < gv[x as int].len() && gv[x as int][kk] == w;
                assert(gv[x as int][kk] < gv.len());
            }
            lemma_closed_reach(gv, parent@, p, s, t, p.len() - 1);
        }
    }
    None
}

/// Finds a shortest path from `s` to `t`, with no repeated vertex, in the
/// graph whose adjacency lists are `g`, following the breadth-first tree from `s`.
/// Gives `None` when `t` cannot be reached, and also when `t` is `s`.
pub fn find_path(g: &Vec<Vec<usize>>, s: usize, t: usize) -> (r: Option<Vec<usize>>)
    requires
        graph_wf(adj_view(g@)),
        s < g.len(),
        t < g.len(),
    ensures
        r is Some <==> (s != t && reachable(adj_view(g@), s, t)),
        match r {
            Some(p) => {
                &&& is_path(adj_view(g@), p@, s, t)
                &&& p@.no_duplicates()
                &&& forall|q: Seq<usize>| #[trigger] is_path(adj_view(g@), q, s, t) ==> p@.len() <= q.len()
            },
            None => true,
        },
{
    let ghost gv = adj_view(g@);
    match bfs(g, s, t) {
        Some((parent, level)) => {
            let mut next = t;
            let mut back: Vec<usize> = Vec::new();
            loop
                invariant_except_break
                    back.len() + level[next as int] == level[t as int],
                    back.len() == 0 ==> next == t,
                    back.len() > 0 ==> has_edge(gv, next, back@.last()),
                invariant
                    bfs_tree(gv, s, parent@, level@),
                    discovered(parent@, t),
                    s != t,
                    next < gv.len(),
                    discovered(parent@, next),
                    back.len() > 0 ==> back[0] == t,
                    forall|i: int| 0 <= i < back.len() ==> #[trigger] back[i] < gv.len()
                        && level[back[i] as int] + i == level[t as int],
                    forall|i: int| 0 <= i < back.len() - 1 ==> #[trigger] has_edge(gv, back[i + 1], back[i]),
                ensures
                    back.len() >= 1,
                    back[0] == t,
                    back@.last() == s,
                    back.len() == level[t as int] + 1,
                decreases level[next as int],
            {
                back.push(next);
                if next == parent[next] {
                    break;
                }
                next = parent[next];
            }
            let len = back.len();
            let mut path: Vec<usize> = Vec::new();
            let mut i = len;
            while i > 0
                invariant
                    i <= len,
                    len == back.len(),
                    path.len() + i == len,
                    forall|j: int| 0 <= j < path.len() ==> #[trigger] path[j] == back[len - 1 - j],
                decreases i,
            {
                i = i - 1;
                path.push(back[i]);
            }
            proof {
                assert forall|j: int| 0 <= j < path.len() - 1 implies #[trigger] has_edge(gv, path@[j], path@[j + 1]) by {
                    assert(path[j] == back[len - 1 - j]);
                    assert(path[j + 1] == back[len - 1 - (j + 1)]);
                    let b = len - 2 - j;
                    assert(has_edge(gv, back[b + 1], back[b]));
                }
                assert forall|a: int, b: int| 0 <= a < path.len() && 0 <= b < path.len() && a != b implies path@[a] != path@[b] by {
                    assert(path[a] == back[len - 1 - a]);
                    assert(path[b] == back[len - 1 - b]);
                }
                assert(is_path(gv, path@, s, t));
                assert forall|q: Seq<usize>| #[trigger] is_path(gv, q, s, t) implies path@.len() <= q.len() by {
                    assert(no_shorter_walk(gv, s, t, level@[t as int] as int));
                }
            }
            Some(path)
        },
        None => None,
    }
}

} // verus!
