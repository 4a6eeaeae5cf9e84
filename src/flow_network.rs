use vstd::prelude::*;

use crate::bfs::{adj_view, has_edge};
use vstd::std_specs::cmp::PartialEqSpec;

verus! {

/// A directed network with capacities, a source `start` and a sink `end`.
/// `capacities` lists each edge once, as its pair of endpoints and its
/// capacity; `adj_list` lists the heads of the edges that leave each vertex.
pub struct FlowNetwork {
    pub start: usize,
    pub end: usize,
    pub adj_list: Vec<Vec<usize>>,
    pub capacities: Vec<((usize, usize), usize)>,
}

/// A vertex label: the source, the sink, or any other vertex by its own identifier.
#[derive(Clone, Copy, Debug)]
pub enum Node<T> {
    Start,
    End,
    Id(T),
}

/// The map from endpoint pairs to capacities that inserting the entries of
/// `es` one after another builds: a later entry for a pair replaces an earlier one.
pub open spec fn capacity_map(es: Seq<((usize, usize), usize)>) -> Map<(usize, usize), usize>
    decreases es.len(),
{
    if es.len() == 0 {
        Map::empty()
    } else {
        capacity_map(es.drop_last()).insert(es.last().0, es.last().1)
    }
}

/// No endpoint pair occurs twice in `es`.
pub open spec fn unique_pairs(es: Seq<((usize, usize), usize)>) -> bool {
    forall|i: int, j: int| 0 <= i < es.len() && 0 <= j < es.len() && i != j ==> #[trigger] es[i].0 != #[trigger] es[j].0
}

/// Both endpoints of every entry of `es` are below `n`.
pub open spec fn endpoints_below(es: Seq<((usize, usize), usize)>, n: nat) -> bool {
    forall|i: int| 0 <= i < es.len() ==> (#[trigger] es[i]).0.0 < n && es[i].0.1 < n
}

/// `labels` with the identifier of `n` appended, unless `n` is the source,
/// the sink, or already listed.
pub open spec fn add_label<T>(labels: Seq<T>, n: Node<T>) -> Seq<T> {
    match n {
        Node::Id(x) => if labels.contains(x) {
            labels
        } else {
            labels.push(x)
        },
        _ => labels,
    }
}

/// `n` is the source, the sink, or an identifier listed in `labels`.
pub open spec fn label_known<T>(labels: Seq<T>, n: Node<T>) -> bool {
    match n {
        Node::Id(x) => labels.contains(x),
        _ => true,
    }
}

/// The identifiers met in `es`, each once, in the order of their first appearance.
pub open spec fn labels_of<T>(es: Seq<((Node<T>, Node<T>), usize)>) -> Seq<T>
    decreases es.len(),
{
    if es.len() == 0 {
        Seq::empty()
    } else {
        add_label(add_label(labels_of(es.drop_last()), es.last().0.0), es.last().0.1)
    }
}

/// The vertex index of `n`: 0 for the source, 1 for the sink, and `2 + i`
/// for the identifier at position `i` of `labels`.
pub open spec fn node_index<T>(labels: Seq<T>, n: Node<T>) -> int {
    match n {
        Node::Start => 0,
        Node::End => 1,
        Node::Id(x) => 2 + labels.index_of(x),
    }
}

/// The entries of `es` with each label replaced by its vertex index.
pub open spec fn indexed_edges<T>(es: Seq<((Node<T>, Node<T>), usize)>) -> Seq<((usize, usize), usize)> {
    Seq::new(
        es.len(),
        |i: int| ((node_index(labels_of(es), es[i].0.0) as usize, node_index(labels_of(es), es[i].0.1) as usize), es[i].1),
    )
}

/// Every label of `es` gets an index below the number of entries.
pub open spec fn labels_in_range<T>(es: Seq<((Node<T>, Node<T>), usize)>) -> bool {
    forall|i: int|
        0 <= i < es.len() ==> node_index(labels_of(es), (#[trigger] es[i]).0.0) < es.len() && node_index(labels_of(es), es[i].0.1) < es.len()
}

/// Equality on `T` is the mathematical one.
pub open spec fn plain_eq<T: PartialEq>() -> bool {
    &&& T::obeys_eq_spec()
    &&& forall|a: T, b: T| #[trigger] a.eq_spec(&b) <==> a == b
}

proof fn lemma_add_label<T>(labels: Seq<T>, n: Node<T>)
    requires
        labels.no_duplicates(),
    ensures
        add_label(labels, n).no_duplicates(),
        forall|x: T| labels.contains(x) ==> #[trigger] add_label(labels, n).contains(x),
        label_known(add_label(labels, n), n),
{
    if let Node::Id(y) = n {
        if !labels.contains(y) {
            let l2 = labels.push(y);
            assert(l2[labels.len() as int] == y);
            assert forall|x: T| labels.contains(x) implies #[trigger] l2.contains(x) by {
                let j = labels.index_of(x);
                assert(l2[j] == x);
            }
            assert forall|a: int, b: int| 0 <= a < l2.len() && 0 <= b < l2.len() && a != b implies l2[a] != l2[b] by {
                if a < labels.len() && b < labels.len() {
                } else if a < labels.len() {
                    assert(labels[a] == l2[a]);
                } else {
                    assert(labels[b] == l2[b]);
                }
            }
        }
    }
}

/// The labels of `es` repeat nothing and hold every identifier of `es`.
proof fn lemma_labels_of<T>(es: Seq<((Node<T>, Node<T>), usize)>)
    ensures
        labels_of(es).no_duplicates(),
        forall|i: int| 0 <= i < es.len() ==> label_known(labels_of(es), (#[trigger] es[i]).0.0),
        forall|i: int| 0 <= i < es.len() ==> label_known(labels_of(es), (#[trigger] es[i]).0.1),
    decreases es.len(),
{
    if es.len() > 0 {
        let rest = es.drop_last();
        lemma_labels_of(rest);
        let l1 = add_label(labels_of(rest), es.last().0.0);
        lemma_add_label(labels_of(rest), es.last().0.0);
        lemma_add_label(l1, es.last().0.1);
        assert forall|i: int| 0 <= i < es.len() implies label_known(labels_of(es), (#[trigger] es[i]).0.0)
            && label_known(labels_of(es), es[i].0.1) by {
            if i < rest.len() {
                assert(rest[i] == es[i]);
            }
        }
    }
}

impl FlowNetwork {
    /// Number of vertices.
    pub open spec fn n(&self) -> nat {
        self.adj_list@.len()
    }

    pub fn size(&self) -> (r: usize)
        ensures
            r == self.n(),
    {
        self.adj_list.len()
    }

    /// Builds a network on vertices `0 .. edge_capacities.len()` from
    /// `((u, v), capacity)` entries; a later entry for the same pair replaces
    /// an earlier one.
    pub fn from_edges(start: usize, end: usize, edge_capacities: &[((usize, usize), usize)]) -> (r: Self)
        requires
            endpoints_below(edge_capacities@, edge_capacities@.len()),
        ensures
            r.start == start,
            r.end == end,
            r.n() == edge_capacities@.len(),
            unique_pairs(r.capacities@),
            endpoints_below(r.capacities@, r.n()),
            capacity_map(r.capacities@) == capacity_map(edge_capacities@),
            forall|u: usize, v: usize|
                #[trigger] has_edge(adj_view(r.adj_list@), u, v) <==> capacity_map(edge_capacities@).dom().contains((u, v)),
            forall|u: int| 0 <= u < r.n() ==> (#[trigger] r.adj_list@[u])@.no_duplicates(),
    {
        let n = edge_capacities.len();
        let mut adj_list: Vec<Vec<usize>> = Vec::new();
        let mut i: usize = 0;
        while i < n
            invariant
                i <= n,
                adj_list.len() == i,
                forall|u: int| 0 <= u < i ==> (#[trigger] adj_list[u])@.len() == 0,
            decreases n - i,
        {
            adj_list.push(Vec::new());
            i = i + 1;
        }
        let mut capacities: Vec<((usize, usize), usize)> = Vec::new();
        let mut i: usize = 0;
        proof {
            assert(edge_capacities@.subrange(0, 0) =~= Seq::empty());
            assert(capacity_map(capacities@) =~= capacity_map(edge_capacities@.subrange(0, 0)));
        }
        while i < n
            invariant
                i <= n,
                n == edge_capacities@.len(),
                adj_list.len() == n,
                endpoints_below(edge_capacities@, n as nat),
                unique_pairs(capacities@),
                endpoints_below(capacities@, n as nat),
                capacity_map(capacities@) == capacity_map(edge_capacities@.subrange(0, i as int)),
                forall|u: usize, v: usize|
                    #[trigger] has_edge(adj_view(adj_list@), u, v) <==> capacity_map(capacities@).dom().contains((u, v)),
                forall|u: int| 0 <= u < n ==> (#[trigger] adj_list@[u])@.no_duplicates(),
            decreases n - i,
        {
            let (edge, capacity) = edge_capacities[i];
            proof {
                assert(edge_capacities@.subrange(0, i + 1).drop_last() =~= edge_capacities@.subrange(0, i as int));
                lemma_map_of_unique(capacities@);
            }
            let mut k: usize = 0;
            while k < capacities.len()
                invariant
                    k <= capacities.len(),
                    forall|j: int| 0 <= j < k ==> capacities@[j].0 != edge,
                ensures
                    k < capacities.len() ==> capacities@[k as int].0 == edge,
                    k == capacities.len() ==> forall|j: int| 0 <= j < k ==> capacities@[j].0 != edge,
                decreases capacities.len() - k,
            {
                if capacities[k].0.0 == edge.0 && capacities[k].0.1 == edge.1 {
                    break;
                }
                k = k + 1;
            }
            let ghost old_caps = capacities@;
            if k < capacities.len() {
                capacities.set(k, (edge, capacity));
            } else {
                capacities.push((edge, capacity));
            }
            proof {
                let idx = if k < old_caps.len() { k as int } else { old_caps.len() as int };
                assert(capacities@[idx].0 == edge);
                assert forall|a: int, b: int| 0 <= a < capacities@.len() && 0 <= b < capacities@.len() && a != b implies
                    #[trigger] capacities@[a].0 != #[trigger] capacities@[b].0 by {
                    if a != idx && b != idx {
                        assert(old_caps[a] == capacities@[a] && old_caps[b] == capacities@[b]);
                    } else if a == idx {
                        assert(old_caps[b] == capacities@[b]);
                    } else {
                        assert(old_caps[a] == capacities@[a]);
                    }
                }
                lemma_map_of_unique(capacities@);
                assert(capacity_map(capacities@) =~= capacity_map(old_caps).insert(edge, capacity)) by {
                    assert forall|p: (usize, usize)| #[trigger] capacity_map(capacities@).dom().contains(p)
                        <==> capacity_map(old_caps).insert(edge, capacity).dom().contains(p) by {
                        if p != edge && capacity_map(old_caps).dom().contains(p) {
                            let j = choose|j: int| 0 <= j < old_caps.len() && old_caps[j].0 == p;
                            assert(capacities@[j].0 == p);
                        }
                        if p != edge && capacity_map(capacities@).dom().contains(p) {
                            let j = choose|j: int| 0 <= j < capacities@.len() && capacities@[j].0 == p;
                            assert(old_caps[j].0 == p);
                        }
                    }
                    assert forall|p: (usize, usize)| #[trigger] capacity_map(capacities@).dom().contains(p)
                        implies capacity_map(capacities@)[p] == capacity_map(old_caps).insert(edge, capacity)[p] by {
                        if p != edge {
                            let j = choose|j: int| 0 <= j < capacities@.len() && capacities@[j].0 == p;
                            assert(old_caps[j].0 == p);
                        } else {
                            let j = if k < old_caps.len() { k as int } else { old_caps.len() as int };
                            assert(capacities@[j].0 == p);
                        }
                    }
                }
            }
            let present = vec_contains(&adj_list[edge.0], edge.1);
            if !present {
                let ghost old_adj = adj_list@;
                let mut row = Vec::new();
                std::mem::swap(&mut row, &mut adj_list[edge.0]);
                row.push(edge.1);
                adj_list.set(edge.0, row);
                proof {
                    assert forall|u: usize, v: usize|
                        #[trigger] has_edge(adj_view(adj_list@), u, v) <==> has_edge(adj_view(old_adj), u, v) || (u, v) == edge by {
                        if u == edge.0 {
                            assert(adj_list@[u as int]@ == old_adj[u as int]@.push(edge.1));
                            if old_adj[u as int]@.contains(v) {
                                let j = choose|j: int| 0 <= j < old_adj[u as int]@.len() && old_adj[u as int]@[j] == v;
                                assert(adj_list@[u as int]@[j] == v);
                            }
                            if v == edge.1 {
                                assert(adj_list@[u as int]@[old_adj[u as int]@.len() as int] == v);
                            }
                        }
                    }
                    assert forall|u: int| 0 <= u < n implies (#[trigger] adj_list@[u])@.no_duplicates() by {
                        if u == edge.0 {
                            assert(old_adj[u]@.no_duplicates());
                            assert(!old_adj[u]@.contains(edge.1));
                        } else {
                            assert(old_adj[u]@.no_duplicates());
                        }
                    }
                }
            } else {
                proof {
                    assert(has_edge(adj_view(adj_list@), edge.0, edge.1));
                }
            }
            i = i + 1;
        }
        proof {
            assert(edge_capacities@.subrange(0, n as int) =~= edge_capacities@);
        }
        FlowNetwork { adj_list, capacities, start, end }
    }
}

impl FlowNetwork {
    /// Builds a network from edges between labels: the source gets index 0,
    /// the sink index 1, and each other label, in the order of its first
    /// appearance, the next index from 2 on. The network has as many vertices
    /// as there are entries.
    pub fn from_edges_nice<T: Copy + PartialEq>(edge_capacities: &[((Node<T>, Node<T>), usize)]) -> (r: Self)
        requires
            plain_eq::<T>(),
            labels_in_range(edge_capacities@),
        ensures
            r.start == 0,
            r.end == 1,
            r.n() == edge_capacities@.len(),
            unique_pairs(r.capacities@),
            endpoints_below(r.capacities@, r.n()),
            capacity_map(r.capacities@) == capacity_map(indexed_edges(edge_capacities@)),
            forall|u: usize, v: usize|
                #[trigger] has_edge(adj_view(r.adj_list@), u, v) <==> capacity_map(indexed_edges(edge_capacities@)).dom().contains((u, v)),
    {
        let ghost es = edge_capacities@;
        let n = edge_capacities.len();
        let mut lookup: Vec<T> = Vec::new();
        let mut i: usize = 0;
        proof {
            assert(es.subrange(0, 0) =~= Seq::empty());
        }
        while i < n
            invariant
                i <= n,
                n == es.len(),
                es == edge_capacities@,
                plain_eq::<T>(),
                lookup@ == labels_of(es.subrange(0, i as int)),
            decreases n - i,
        {
            let (edge, _) = edge_capacities[i];
            proof {
                assert(es.subrange(0, i + 1).drop_last() =~= es.subrange(0, i as int));
                assert(es.subrange(0, i + 1).last() == es[i as int]);
            }
            note_label(&mut lookup, edge.0);
            note_label(&mut lookup, edge.1);
            i = i + 1;
        }
        proof {
            assert(es.subrange(0, n as int) =~= es);
            lemma_labels_of(es);
        }
        let mut tmp: Vec<((usize, usize), usize)> = Vec::new();
        let mut i: usize = 0;
        while i < n
            invariant
                i <= n,
                n == es.len(),
                es == edge_capacities@,
                plain_eq::<T>(),
                lookup@ == labels_of(es),
                lookup@.no_duplicates(),
                forall|k: int| 0 <= k < es.len() ==> label_known(lookup@, (#[trigger] es[k]).0.0),
                forall|k: int| 0 <= k < es.len() ==> label_known(lookup@, (#[trigger] es[k]).0.1),
                labels_in_range(es),
                tmp@ == indexed_edges(es).subrange(0, i as int),
            decreases n - i,
        {
            let (edge, capacity) = edge_capacities[i];
            proof {
                assert(es[i as int] == (edge, capacity));
            }
            let u = index_of_node(&lookup, edge.0, n);
            let v = index_of_node(&lookup, edge.1, n);
            tmp.push(((u, v), capacity));
            proof {
                assert(tmp@ =~= indexed_edges(es).subrange(0, i + 1));
            }
            i = i + 1;
        }
        proof {
            assert(tmp@ =~= indexed_edges(es));
            assert forall|k: int| 0 <= k < tmp@.len() implies (#[trigger] tmp@[k]).0.0 < n && tmp@[k].0.1 < n by {
                assert(tmp@[k] == indexed_edges(es)[k]);
            }
        }
        Self::from_edges(0, 1, tmp.as_slice())
    }
}

/// Appends the identifier of `n` to `lookup` unless it is listed already.
fn note_label<T: Copy + PartialEq>(lookup: &mut Vec<T>, n: Node<T>)
    requires
        plain_eq::<T>(),
    ensures
        final(lookup)@ == add_label(old(lookup)@, n),
{
    if let Node::Id(x) = n {
        let mut k: usize = 0;
        while k < lookup.len()
            invariant
                k <= lookup.len(),
                plain_eq::<T>(),
                lookup@ == old(lookup)@,
                n == Node::Id(x),
                forall|j: int| 0 <= j < k ==> lookup@[j] != x,
            decreases lookup.len() - k,
        {
            if lookup[k] == x {
                proof {
                    assert(lookup@[k as int].eq_spec(&x));
                    assert(lookup@[k as int] == x);
                    assert(lookup@.contains(x));
                }
                return;
            }
            k = k + 1;
        }
        proof {
            assert(!lookup@.contains(x));
        }
        lookup.push(x);
    }
}

/// The vertex index of `n` among the labels `lookup`.
fn index_of_node<T: Copy + PartialEq>(lookup: &Vec<T>, n: Node<T>, bound: usize) -> (r: usize)
    requires
        plain_eq::<T>(),
        lookup@.no_duplicates(),
        label_known(lookup@, n),
        node_index(lookup@, n) < bound,
    ensures
        r == node_index(lookup@, n),
{
    match n {
        Node::Start => 0,
        Node::End => 1,
        Node::Id(x) => {
            let mut k: usize = 0;
            while k < lookup.len()
                invariant
                    k <= lookup.len(),
                    plain_eq::<T>(),
                    lookup@.contains(x),
                    lookup@.no_duplicates(),
                    n == Node::Id(x),
                    node_index(lookup@, n) < bound,
                    forall|j: int| 0 <= j < k ==> lookup@[j] != x,
                decreases lookup.len() - k,
            {
                if lookup[k] == x {
                    proof {
                        assert(lookup@[k as int].eq_spec(&x));
                        assert(lookup@[k as int] == x);
                        let j = lookup@.index_of(x);
                        assert(lookup@[j] == x);
                        assert(j == k);
                    }
                    return k + 2;
                }
                k = k + 1;
            }
            proof {
                let j = lookup@.index_of(x);
                assert(lookup@[j] == x);
            }
            0
        },
    }
}

/// With no pair repeated, the capacity map holds exactly the listed entries.
pub proof fn lemma_map_of_unique(es: Seq<((usize, usize), usize)>)
    requires
        unique_pairs(es),
    ensures
        forall|p: (usize, usize)| #[trigger] capacity_map(es).dom().contains(p)
            <==> exists|j: int| 0 <= j < es.len() && es[j].0 == p,
        forall|j: int| 0 <= j < es.len() ==> #[trigger] capacity_map(es)[es[j].0] == es[j].1,
    decreases es.len(),
{
    if es.len() > 0 {
        let rest = es.drop_last();
        assert(capacity_map(es) == capacity_map(rest).insert(es.last().0, es.last().1));
        assert(unique_pairs(rest)) by {
            assert forall|i: int, j: int| 0 <= i < rest.len() && 0 <= j < rest.len() && i != j implies
                #[trigger] rest[i].0 != #[trigger] rest[j].0 by {
                assert(rest[i] == es[i] && rest[j] == es[j]);
            }
        }
        lemma_map_of_unique(rest);
        assert forall|p: (usize, usize)| #[trigger] capacity_map(es).dom().contains(p)
            <==> exists|j: int| 0 <= j < es.len() && es[j].0 == p by {
            if p != es.last().0 && capacity_map(rest).dom().contains(p) {
                let j = choose|j: int| 0 <= j < rest.len() && rest[j].0 == p;
                assert(es[j].0 == p);
            }
            if exists|j: int| 0 <= j < es.len() && es[j].0 == p {
                let j = choose|j: int| 0 <= j < es.len() && es[j].0 == p;
                if j < rest.len() {
                    assert(rest[j].0 == p);
                }
            }
        }
        assert forall|j: int| 0 <= j < es.len() implies #[trigger] capacity_map(es)[es[j].0] == es[j].1 by {
            if j < rest.len() {
                assert(rest[j] == es[j]);
                assert(es[j].0 != es[es.len() - 1].0);
            }
        }
    }
}

/// Whether `v` is listed in `row`.
fn vec_contains(row: &Vec<usize>, v: usize) -> (r: bool)
    ensures
        r == row@.contains(v),
{
    let mut k: usize = 0;
    while k < row.len()
        invariant
            k <= row.len(),
            forall|j: int| 0 <= j < k ==> row@[j] != v,
        decreases row.len() - k,
    {
        if row[k] == v {
            return true;
        }
        k = k + 1;
    }
    false
}

} // verus!
