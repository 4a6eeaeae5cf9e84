use vstd::prelude::*;

use crate::bfs::{adj_view, graph_wf};

verus! {

/// Whether a residual edge leaves unused capacity of an original edge, or
/// gives back flow already sent along one.
#[derive(Clone, Copy, Debug, PartialEq, Eq, Structural)]
pub enum Direction {
    Forwards,
    Backwards,
}

/// A directed graph whose edges carry a positive weight and a direction.
/// `edges[u][k]` belongs to the edge from `u` to `adj_list[u][k]`.
pub struct ResidualNetwork {
    pub adj_list: Vec<Vec<usize>>,
    pub edges: Vec<Vec<(usize, Direction)>>,
}

/// The entry that a row stores for the neighbour `v`.
pub open spec fn row_entry(adj: Seq<usize>, es: Seq<(usize, Direction)>, v: usize) -> Option<(usize, Direction)> {
    if adj.contains(v) {
        Some(es[adj.index_of(v)])
    } else {
        None
    }
}

proof fn lemma_row_entry(adj: Seq<usize>, es: Seq<(usize, Direction)>, v: usize, k: int)
    requires
        adj.no_duplicates(),
        0 <= k < adj.len(),
        adj[k] == v,
    ensures
        row_entry(adj, es, v) == Some(es[k]),
{
    assert(adj.contains(v));
    let j = adj.index_of(v);
    assert(adj[j] == v);
}

impl ResidualNetwork {
    /// Number of vertices.
    pub open spec fn n(&self) -> nat {
        self.adj_list@.len()
    }

    pub open spec fn wf(&self) -> bool {
        &&& self.adj_list.len() == self.edges.len()
        &&& forall|u: int|
            0 <= u < self.adj_list.len() ==> {
                &&& #[trigger] self.adj_list[u].len() == self.edges[u].len()
                &&& self.adj_list[u]@.no_duplicates()
            }
        &&& forall|u: int, k: int|
            0 <= u < self.edges.len() && 0 <= k < self.edges[u].len() ==> #[trigger] self.edges[u][k].0 > 0
        &&& graph_wf(adj_view(self.adj_list@))
    }

    /// The weight and direction of the edge from `u` to `v`, if there is one.
    pub open spec fn entry(&self, u: usize, v: usize) -> Option<(usize, Direction)> {
        if u < self.adj_list.len() {
            row_entry(self.adj_list[u as int]@, self.edges[u as int]@, v)
        } else {
            None
        }
    }

    /// `adj_list` lists exactly the edges that have an entry.
    pub proof fn lemma_adj_matches(&self, u: usize, v: usize)
        requires
            self.wf(),
            u < self.n(),
        ensures
            self.adj_list[u as int]@.contains(v) <==> self.entry(u, v) is Some,
    {
    }

    /// A network of `size` vertices and no edge.
    pub fn new(size: usize) -> (r: Self)
        ensures
            r.wf(),
            r.n() == size,
            forall|u: usize, v: usize| r.entry(u, v) is None,
    {
        let mut adj_list: Vec<Vec<usize>> = Vec::new();
        let mut edges: Vec<Vec<(usize, Direction)>> = Vec::new();
        let mut i: usize = 0;
        while i < size
            invariant
                i <= size,
                adj_list.len() == i,
                edges.len() == i,
                forall|u: int| 0 <= u < i ==> (#[trigger] adj_list[u])@.len() == 0,
                forall|u: int| 0 <= u < i ==> (#[trigger] edges[u])@.len() == 0,
            decreases size - i,
        {
            adj_list.push(Vec::new());
            edges.push(Vec::new());
            i = i + 1;
        }
        let r = ResidualNetwork { adj_list, edges };
        assert forall|a: int| 0 <= a < r.adj_list.len() implies {
            &&& #[trigger] r.adj_list[a].len() == r.edges[a].len()
            &&& r.adj_list[a]@.no_duplicates()
        } by {
            assert(r.adj_list[a]@.len() == 0 && r.edges[a]@.len() == 0);
        }
        assert forall|a: int, k: int| 0 <= a < r.edges.len() && 0 <= k < r.edges[a].len() implies #[trigger] r.edges[a][k].0 > 0 by {
            assert(0 <= a < r.adj_list.len());
            assert(r.adj_list[a]@.len() == 0 && r.edges[a]@.len() == 0);
        }
        assert forall|a: int, j: int|
            0 <= a < adj_view(r.adj_list@).len() && 0 <= j < adj_view(r.adj_list@)[a].len() implies
            #[trigger] adj_view(r.adj_list@)[a][j] < adj_view(r.adj_list@).len() by {
            assert(r.adj_list[a]@.len() == 0);
        }
        r
    }

    /// The weight and direction of the edge from `u` to `v`, which must exist.
    pub fn weight(&self, u: usize, v: usize) -> (r: (usize, Direction))
        requires
            self.wf(),
            u < self.n(),
            self.entry(u, v) is Some,
        ensures
            self.entry(u, v) == Some(r),
            r.0 > 0,
    {
        let row = &self.adj_list[u];
        assert(self.adj_list[u as int].len() == self.edges[u as int].len());
        let mut k: usize = 0;
        while k < row.len()
            invariant
                k <= row.len(),
                self.wf(),
                u < self.n(),
                row@ == self.adj_list[u as int]@,
                u < self.edges.len(),
                row.len() == self.edges[u as int].len(),
                row@.no_duplicates(),
                forall|j: int| 0 <= j < k ==> row@[j] != v,
            decreases row.len() - k,
        {
            if row[k] == v {
                proof {
                    lemma_row_entry(row@, self.edges[u as int]@, v, k as int);
                }
                return self.edges[u][k];
            }
            k = k + 1;
        }
        proof {
            let j = row@.index_of(v);
            assert(row@[j] == v);
        }
        self.edges[u][0]
    }

    /// Sets the entry of the edge from `u` to `v` to `e`, removing the edge for `None`.
    #[verifier::spinoff_prover]
    fn set_entry(&mut self, u: usize, v: usize, e: Option<(usize, Direction)>)
        requires
            old(self).wf(),
            u < old(self).n(),
            v < old(self).n(),
            e matches Some(x) ==> x.0 > 0,
        ensures
            final(self).wf(),
            final(self).n() == old(self).n(),
            final(self).entry(u, v) == e,
            forall|a: usize, b: usize| (a, b) != (u, v) ==> #[trigger] final(self).entry(a, b) == old(self).entry(a, b),
    {
        let ghost old_adj = self.adj_list[u as int]@;
        let ghost old_es = self.edges[u as int]@;
        assert(self.adj_list[u as int].len() == self.edges[u as int].len());
        assert(old_adj.no_duplicates());
        let row_len = self.adj_list[u].len();
        let mut k: usize = 0;
        while k < row_len
            invariant
                k <= row_len,
                row_len == self.adj_list[u as int].len(),
                u < self.adj_list.len(),
                forall|j: int| 0 <= j < k ==> self.adj_list[u as int][j] != v,
            ensures
                k < row_len ==> self.adj_list[u as int][k as int] == v,
                k == row_len ==> forall|j: int| 0 <= j < k ==> self.adj_list[u as int][j] != v,
            decreases row_len - k,
        {
            if self.adj_list[u][k] == v {
                break;
            }
            k = k + 1;
        }
        if k < row_len {
            proof {
                lemma_row_entry(old_adj, old_es, v, k as int);
            }
            match e {
                Some(x) => {
                    self.edges[u].set(k, x);
                    proof {
                        lemma_row_entry(old_adj, self.edges[u as int]@, v, k as int);
                        assert forall|b: usize| b != v implies #[trigger] row_entry(old_adj, self.edges[u as int]@, b)
                            == row_entry(old_adj, old_es, b) by {
                            if old_adj.contains(b) {
                                let j = old_adj.index_of(b);
                                lemma_row_entry(old_adj, old_es, b, j);
                                lemma_row_entry(old_adj, self.edges[u as int]@, b, j);
                            }
                        }
                    }
                },
                None => {
                    self.adj_list[u].swap_remove(k);
                    self.edges[u].swap_remove(k);
                    proof {
                        let na = self.adj_list[u as int]@;
                        let ne = self.edges[u as int]@;
                        let last = old_adj.len() - 1;
                        assert forall|a: int, b: int| 0 <= a < na.len() && 0 <= b < na.len() && a != b implies na[a] != na[b] by {
                            let oa = if a == k { last } else { a };
                            let ob = if b == k { last } else { b };
                            assert(na[a] == old_adj[oa]);
                            assert(na[b] == old_adj[ob]);
                        }
                        assert(!na.contains(v)) by {
                            if na.contains(v) {
                                let j = na.index_of(v);
                                let oj = if j == k { last } else { j };
                                assert(na[j] == old_adj[oj]);
                            }
                        }
                        assert forall|b: usize| b != v implies #[trigger] row_entry(na, ne, b)
                            == row_entry(old_adj, old_es, b) by {
                            if old_adj.contains(b) {
                                let j = old_adj.index_of(b);
                                lemma_row_entry(old_adj, old_es, b, j);
                                let nj = if j == last { k as int } else { j };
                                assert(na[nj] == b);
                                lemma_row_entry(na, ne, b, nj);
                            } else {
                                if na.contains(b) {
                                    let j = na.index_of(b);
                                    let oj = if j == k { last } else { j };
                                    assert(na[j] == old_adj[oj]);
                                }
                            }
                        }
                    }
                },
            }
        } else {
            assert(!old_adj.contains(v));
            match e {
                Some(x) => {
                    self.adj_list[u].push(v);
                    self.edges[u].push(x);
                    proof {
                        let na = self.adj_list[u as int]@;
                        let ne = self.edges[u as int]@;
                        assert(na == old_adj.push(v));
                        assert forall|a: int, b: int| 0 <= a < na.len() && 0 <= b < na.len() && a != b implies na[a] != na[b] by {
                            if a < old_adj.len() && b < old_adj.len() {
                                assert(na[a] == old_adj[a]);
                            }
                        }
                        lemma_row_entry(na, ne, v, old_adj.len() as int);
                        assert forall|b: usize| b != v implies #[trigger] row_entry(na, ne, b)
                            == row_entry(old_adj, old_es, b) by {
                            if old_adj.contains(b) {
                                let j = old_adj.index_of(b);
                                lemma_row_entry(old_adj, old_es, b, j);
                                assert(na[j] == b);
                                lemma_row_entry(na, ne, b, j);
                            } else {
                                if na.contains(b) {
                                    let j = na.index_of(b);
                                    assert(na[j] == old_adj[j]);
                                }
                            }
                        }
                    }
                },
                None => {},
            }
        }
        proof {
            assert forall|a: int| 0 <= a < self.adj_list.len() implies {
                &&& #[trigger] self.adj_list[a].len() == self.edges[a].len()
                &&& self.adj_list[a]@.no_duplicates()
            } by {
                if a != u {
                    assert(self.adj_list[a] == old(self).adj_list[a]);
                    assert(self.edges[a] == old(self).edges[a]);
                    assert(old(self).adj_list[a].len() == old(self).edges[a].len());
                }
            }
            assert forall|a: int, j: int| 0 <= a < self.edges.len() && 0 <= j < self.edges[a].len() implies #[trigger] self.edges[a][j].0 > 0 by {
                if a != u {
                    assert(self.edges[a] == old(self).edges[a]);
                    assert(old(self).edges[a][j].0 > 0);
                } else {
                    let ne = self.edges[a]@;
                    if j < old_es.len() && ne[j] == old_es[j] {
                        assert(old(self).edges[a][j].0 > 0);
                    } else if j < old_es.len() && j == k && k < row_len && e is None {
                        assert(ne[j] == old_es[old_es.len() - 1]);
                        assert(old(self).edges[a][old_es.len() - 1].0 > 0);
                    }
                }
            }
            assert(graph_wf(adj_view(self.adj_list@))) by {
                assert forall|a: int, j: int|
                    0 <= a < adj_view(self.adj_list@).len() && 0 <= j < adj_view(self.adj_list@)[a].len() implies
                    #[trigger] adj_view(self.adj_list@)[a][j] < adj_view(self.adj_list@).len() by {
                    if a == u {
                        let x = adj_view(self.adj_list@)[a][j];
                        if x != v {
                            assert(self.adj_list[a]@.contains(x));
                            assert(old_adj.contains(x)) by {
                                if !old_adj.contains(x) {
                                    assert(row_entry(old_adj, old_es, x) is None);
                                }
                            }
                            let oj = old_adj.index_of(x);
                            assert(adj_view(old(self).adj_list@)[a][oj] == x);
                        }
                    } else {
                        assert(adj_view(self.adj_list@)[a] == adj_view(old(self).adj_list@)[a]);
                    }
                }
            }
        }
    }

    /// Records that `weight` more units may be sent along the original edge
    /// `edge`: the residual edge from `edge.0` to `edge.1` gets that weight,
    /// or is removed when the weight is zero.
    pub fn update_forward(&mut self, edge: (usize, usize), weight: usize)
        requires
            old(self).wf(),
            edge.0 < old(self).n(),
            edge.1 < old(self).n(),
        ensures
            final(self).wf(),
            final(self).n() == old(self).n(),
            final(self).entry(edge.0, edge.1) == (if weight == 0 {
                None
            } else {
                Some((weight, Direction::Forwards))
            }),
            forall|a: usize, b: usize| (a, b) != edge ==> #[trigger] final(self).entry(a, b) == old(self).entry(a, b),
    {
        if weight == 0 {
            self.set_entry(edge.0, edge.1, None);
        } else {
            self.set_entry(edge.0, edge.1, Some((weight, Direction::Forwards)));
        }
    }

    /// Records that `weight` units sent along the original edge `edge` may be
    /// taken back: the residual edge from `edge.1` to `edge.0` gets that
    /// weight, or is removed when the weight is zero.
    pub fn update_backward(&mut self, edge: (usize, usize), weight: usize)
        requires
            old(self).wf(),
            edge.0 < old(self).n(),
            edge.1 < old(self).n(),
        ensures
            final(self).wf(),
            final(self).n() == old(self).n(),
            final(self).entry(edge.1, edge.0) == (if weight == 0 {
                None
            } else {
                Some((weight, Direction::Backwards))
            }),
            forall|a: usize, b: usize| (a, b) != (edge.1, edge.0) ==> #[trigger] final(self).entry(a, b) == old(self).entry(a, b),
    {
        if weight == 0 {
            self.set_entry(edge.1, edge.0, None);
        } else {
            self.set_entry(edge.1, edge.0, Some((weight, Direction::Backwards)));
        }
    }
}

} // verus!
