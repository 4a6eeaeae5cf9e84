use vstd::prelude::*;

use crate::bfs::{adj_view, find_path, has_edge, is_path};
use crate::cut::{cut_capacity, lemma_max_flow_min_cut, lemma_no_augmenting_path_is_maximum, residual_reach};
use crate::flow_network::{endpoints_below, unique_pairs, FlowNetwork};
use crate::residual_network::{Direction, ResidualNetwork};

verus! {

/// The flow on each original edge, as its pair of endpoints and its amount.
pub type Flow = Vec<((usize, usize), usize)>;

/// The tail of `p` when `outgoing`, else its head.
pub open spec fn end_of(p: (usize, usize), outgoing: bool) -> usize {
    if outgoing {
        p.0
    } else {
        p.1
    }
}

/// Sum of the amounts of the entries of `es[..k]` that leave `v` (when
/// `outgoing`) or enter `v` (otherwise).
pub open spec fn flow_sum(es: Seq<((usize, usize), usize)>, v: usize, outgoing: bool, k: int) -> int
    decreases k,
{
    if k <= 0 {
        0
    } else {
        flow_sum(es, v, outgoing, k - 1) + (if end_of(es[k - 1].0, outgoing) == v {
            es[k - 1].1 as int
        } else {
            0
        })
    }
}

/// Total amount leaving `v`.
pub open spec fn out_flow(es: Seq<((usize, usize), usize)>, v: usize) -> int {
    flow_sum(es, v, true, es.len() as int)
}

/// Total amount entering `v`.
pub open spec fn in_flow(es: Seq<((usize, usize), usize)>, v: usize) -> int {
    flow_sum(es, v, false, es.len() as int)
}

/// Net amount leaving `s`: the value of the flow.
pub open spec fn flow_value(flow: Seq<((usize, usize), usize)>, s: usize) -> int {
    out_flow(flow, s) - in_flow(flow, s)
}

/// `flow` assigns an amount to each edge of `caps`, in the same order.
pub open spec fn same_edges(caps: Seq<((usize, usize), usize)>, flow: Seq<((usize, usize), usize)>) -> bool {
    &&& flow.len() == caps.len()
    &&& forall|i: int| 0 <= i < caps.len() ==> (#[trigger] flow[i]).0 == caps[i].0
}

/// No edge carries more than its capacity.
pub open spec fn feasible(caps: Seq<((usize, usize), usize)>, flow: Seq<((usize, usize), usize)>) -> bool {
    &&& same_edges(caps, flow)
    &&& forall|i: int| 0 <= i < caps.len() ==> (#[trigger] flow[i]).1 <= caps[i].1
}

/// Every vertex below `n` other than `s` and `t` has as much flow in as out.
pub open spec fn conserves(flow: Seq<((usize, usize), usize)>, n: nat, s: usize, t: usize) -> bool {
    forall|v: usize| v < n && v != s && v != t ==> #[trigger] in_flow(flow, v) == out_flow(flow, v)
}

/// The residual edge from `u` to `v` under `flow`: unused capacity of an
/// original edge from `u` to `v`, or flow on an original edge from `v` to `u`
/// that can be sent back.
pub open spec fn residual(caps: Seq<((usize, usize), usize)>, flow: Seq<((usize, usize), usize)>, u: usize, v: usize) -> Option<(usize, Direction)> {
    if exists|i: int| 0 <= i < caps.len() && caps[i].0 == (u, v) && flow[i].1 < caps[i].1 {
        let i = choose|i: int| 0 <= i < caps.len() && caps[i].0 == (u, v) && flow[i].1 < caps[i].1;
        Some(((caps[i].1 - flow[i].1) as usize, Direction::Forwards))
    } else if exists|i: int| 0 <= i < caps.len() && caps[i].0 == (v, u) && flow[i].1 > 0 {
        let i = choose|i: int| 0 <= i < caps.len() && caps[i].0 == (v, u) && flow[i].1 > 0;
        Some((flow[i].1, Direction::Backwards))
    } else {
        None
    }
}

/// `p` leads from `s` to `t` along residual edges of `flow`.
pub open spec fn residual_path(caps: Seq<((usize, usize), usize)>, flow: Seq<((usize, usize), usize)>, p: Seq<usize>, s: usize, t: usize) -> bool {
    &&& p.len() >= 1
    &&& p[0] == s
    &&& p.last() == t
    &&& forall|i: int| 0 <= i < p.len() - 1 ==> (#[trigger] residual(caps, flow, p[i], p[i + 1])) is Some
}

/// Some residual path leads from `s` to `t`: the flow can still be augmented.
pub open spec fn augmentable(caps: Seq<((usize, usize), usize)>, flow: Seq<((usize, usize), usize)>, s: usize, t: usize) -> bool {
    exists|p: Seq<usize>| residual_path(caps, flow, p, s, t)
}

/// Some edge among the first `k` of `caps` joins `u` and `v`, in either direction.
pub open spec fn touches(caps: Seq<((usize, usize), usize)>, k: int, u: usize, v: usize) -> bool {
    exists|i: int| 0 <= i < k && (caps[i].0 == (u, v) || caps[i].0 == (v, u))
}

/// The entry from `u` to `v` after a rebuild from `flow`, given the entry
/// `prev` before it: pairs that no edge joins keep their entry.
pub open spec fn rebuilt(prev: Option<(usize, Direction)>, caps: Seq<((usize, usize), usize)>, flow: Seq<((usize, usize), usize)>, u: usize, v: usize) -> Option<(usize, Direction)> {
    if touches(caps, caps.len() as int, u, v) {
        residual(caps, flow, u, v)
    } else {
        prev
    }
}

/// No pair repeats, no edge is a loop, and no two edges join the same
/// vertices in opposite directions.
pub open spec fn simple_edges(caps: Seq<((usize, usize), usize)>) -> bool {
    &&& unique_pairs(caps)
    &&& forall|i: int| 0 <= i < caps.len() ==> (#[trigger] caps[i]).0.0 != caps[i].0.1
    &&& forall|i: int, j: int|
        0 <= i < caps.len() && 0 <= j < caps.len() ==> #[trigger] caps[i].0 != (#[trigger] caps[j].0.1, caps[j].0.0)
}

impl FlowNetwork {
    /// The network is one the algorithm runs on: source and sink are distinct
    /// vertices, the edges are simple, and the capacities leaving the source
    /// add up to at most `usize::MAX`.
    pub open spec fn valid(&self) -> bool {
        &&& self.start < self.n()
        &&& self.end < self.n()
        &&& self.start != self.end
        &&& endpoints_below(self.capacities@, self.n())
        &&& simple_edges(self.capacities@)
        &&& out_flow(self.capacities@, self.start) <= usize::MAX
    }
}

impl FlowNetwork {
    /// Whether the network is one the algorithm runs on (see `valid`).
    pub fn is_valid(&self) -> (r: bool)
        ensures
            r == self.valid(),
    {
        let ghost caps = self.capacities@;
        let n = self.adj_list.len();
        if self.start >= n || self.end >= n || self.start == self.end {
            return false;
        }
        let m = self.capacities.len();
        let mut i: usize = 0;
        while i < m
            invariant
                i <= m,
                m == caps.len(),
                n == self.n(),
                caps == self.capacities@,
                forall|k: int| 0 <= k < i ==> (#[trigger] caps[k]).0.0 < n && caps[k].0.1 < n && caps[k].0.0 != caps[k].0.1,
                forall|k: int, l: int| 0 <= k < i && 0 <= l < m && k != l ==> #[trigger] caps[k].0 != #[trigger] caps[l].0,
                forall|k: int, l: int| 0 <= k < i && 0 <= l < m ==> #[trigger] caps[k].0 != (#[trigger] caps[l].0.1, caps[l].0.0),
            decreases m - i,
        {
            let (a, b) = self.capacities[i].0;
            if a >= n || b >= n || a == b {
                proof {
                    assert(!endpoints_below(caps, n as nat) || caps[i as int].0.0 == caps[i as int].0.1);
                }
                return false;
            }
            let mut j: usize = 0;
            while j < m
                invariant
                    j <= m,
                    i < m,
                    m == caps.len(),
                    caps == self.capacities@,
                    (a, b) == caps[i as int].0,
                    forall|l: int| 0 <= l < j && l != i ==> #[trigger] caps[l].0 != (a, b),
                    forall|l: int| 0 <= l < j ==> #[trigger] caps[l].0 != (b, a),
                decreases m - j,
            {
                let (c, d) = self.capacities[j].0;
                if (j != i && c == a && d == b) || (c == b && d == a) {
                    proof {
                        if j != i && c == a && d == b {
                            assert(caps[i as int].0 == caps[j as int].0);
                            assert(!unique_pairs(caps));
                        } else {
                            assert(caps[j as int].0 == (caps[i as int].0.1, caps[i as int].0.0));
                        }
                    }
                    return false;
                }
                j = j + 1;
            }
            proof {
                assert forall|l: int| 0 <= l < m && l != i implies #[trigger] caps[i as int].0 != caps[l].0 by {
                    assert(caps[l].0 != (a, b));
                }
                assert forall|l: int| 0 <= l < m implies caps[i as int].0 != (#[trigger] caps[l].0.1, caps[l].0.0) by {
                    assert(caps[l].0 != (b, a));
                }
            }
            i = i + 1;
        }
        let s = self.start;
        proof {
            assert(endpoints_below(caps, n as nat));
            assert(simple_edges(caps));
        }
        let mut total: usize = 0;
        let mut k: usize = 0;
        while k < m
            invariant
                k <= m,
                m == caps.len(),
                caps == self.capacities@,
                s == self.start,
                n == self.n(),
                self.start < n && self.end < n && self.start != self.end,
                endpoints_below(caps, n as nat),
                simple_edges(caps),
                total == flow_sum(caps, s, true, k as int),
            decreases m - k,
        {
            let (pair, c) = self.capacities[k];
            if pair.0 == s {
                if total > usize::MAX - c {
                    proof {
                        assert(caps[k as int] == (pair, c));
                        assert(flow_sum(caps, s, true, k + 1) == total + c);
                        lemma_flow_sum_mono(caps, s, true, k + 1, m as int);
                        assert(out_flow(caps, s) > usize::MAX);
                    }
                    return false;
                }
                total = total + c;
            }
            k = k + 1;
        }
        true
    }
}

/// Changing the amount of entry `j` by `d` changes each sum that counts it by `d`.
pub proof fn lemma_flow_sum_update(es: Seq<((usize, usize), usize)>, j: int, a: usize, v: usize, outgoing: bool, k: int)
    requires
        0 <= j < es.len(),
        0 <= k <= es.len(),
    ensures
        flow_sum(es.update(j, (es[j].0, a)), v, outgoing, k) == flow_sum(es, v, outgoing, k) + (if j < k && end_of(es[j].0, outgoing) == v {
            a - es[j].1
        } else {
            0
        }),
    decreases k,
{
    if k > 0 {
        lemma_flow_sum_update(es, j, a, v, outgoing, k - 1);
    }
}

/// Sums grow with the prefix they cover.
pub proof fn lemma_flow_sum_mono(es: Seq<((usize, usize), usize)>, v: usize, outgoing: bool, k1: int, k2: int)
    requires
        0 <= k1 <= k2 <= es.len(),
    ensures
        0 <= flow_sum(es, v, outgoing, k1) <= flow_sum(es, v, outgoing, k2),
    decreases k2,
{
    if k2 > k1 {
        lemma_flow_sum_mono(es, v, outgoing, k1, k2 - 1);
    } else if k1 > 0 {
        lemma_flow_sum_mono(es, v, outgoing, k1 - 1, k1 - 1);
    }
}

/// A feasible flow sends no more through a vertex than the capacities allow.
pub proof fn lemma_flow_sum_le_caps(caps: Seq<((usize, usize), usize)>, flow: Seq<((usize, usize), usize)>, v: usize, outgoing: bool, k: int)
    requires
        feasible(caps, flow),
        0 <= k <= caps.len(),
    ensures
        flow_sum(flow, v, outgoing, k) <= flow_sum(caps, v, outgoing, k),
    decreases k,
{
    if k > 0 {
        lemma_flow_sum_le_caps(caps, flow, v, outgoing, k - 1);
        assert(flow[k - 1].0 == caps[k - 1].0);
    }
}

/// Sums over amounts that are all zero are zero.
proof fn lemma_flow_sum_zero(es: Seq<((usize, usize), usize)>, v: usize, outgoing: bool, k: int)
    requires
        0 <= k <= es.len(),
        forall|i: int| 0 <= i < es.len() ==> (#[trigger] es[i]).1 == 0,
    ensures
        flow_sum(es, v, outgoing, k) == 0,
    decreases k,
{
    if k > 0 {
        lemma_flow_sum_zero(es, v, outgoing, k - 1);
    }
}

/// The residual entries of the two orientations of edge `i`.
pub proof fn lemma_residual_at(caps: Seq<((usize, usize), usize)>, flow: Seq<((usize, usize), usize)>, i: int)
    requires
        simple_edges(caps),
        same_edges(caps, flow),
        0 <= i < caps.len(),
    ensures
        residual(caps, flow, caps[i].0.0, caps[i].0.1) == (if flow[i].1 < caps[i].1 {
            Some(((caps[i].1 - flow[i].1) as usize, Direction::Forwards))
        } else {
            None
        }),
        residual(caps, flow, caps[i].0.1, caps[i].0.0) == (if flow[i].1 > 0 {
            Some((flow[i].1, Direction::Backwards))
        } else {
            None
        }),
{
    let (u, v) = caps[i].0;
    assert(caps[i].0 != (caps[i].0.1, caps[i].0.0));
    if exists|j: int| 0 <= j < caps.len() && caps[j].0 == (u, v) && flow[j].1 < caps[j].1 {
        let j = choose|j: int| 0 <= j < caps.len() && caps[j].0 == (u, v) && flow[j].1 < caps[j].1;
        assert(j == i);
    }
    if exists|j: int| 0 <= j < caps.len() && caps[j].0 == (v, u) && flow[j].1 < caps[j].1 {
        let j = choose|j: int| 0 <= j < caps.len() && caps[j].0 == (v, u) && flow[j].1 < caps[j].1;
        assert(caps[i].0 != (caps[j].0.1, caps[j].0.0));
    }
    if exists|j: int| 0 <= j < caps.len() && caps[j].0 == (v, u) && flow[j].1 > 0 {
        let j = choose|j: int| 0 <= j < caps.len() && caps[j].0 == (v, u) && flow[j].1 > 0;
        assert(caps[i].0 != (caps[j].0.1, caps[j].0.0));
    }
    if exists|j: int| 0 <= j < caps.len() && caps[j].0 == (u, v) && flow[j].1 > 0 {
        let j = choose|j: int| 0 <= j < caps.len() && caps[j].0 == (u, v) && flow[j].1 > 0;
        assert(j == i);
    }
}

/// Rebuilding from the same flow a second time changes no entry.
pub proof fn lemma_rebuild_idempotent(prev: Option<(usize, Direction)>, caps: Seq<((usize, usize), usize)>, flow: Seq<((usize, usize), usize)>, u: usize, v: usize)
    ensures
        rebuilt(rebuilt(prev, caps, flow, u, v), caps, flow, u, v) == rebuilt(prev, caps, flow, u, v),
{
}

/// A pair that no edge joins has no residual edge.
proof fn lemma_untouched_none(caps: Seq<((usize, usize), usize)>, flow: Seq<((usize, usize), usize)>, u: usize, v: usize)
    requires
        !touches(caps, caps.len() as int, u, v),
    ensures
        residual(caps, flow, u, v) is None,
{
    if exists|i: int| 0 <= i < caps.len() && caps[i].0 == (u, v) && flow[i].1 < caps[i].1 {
        let i = choose|i: int| 0 <= i < caps.len() && caps[i].0 == (u, v) && flow[i].1 < caps[i].1;
        assert(touches(caps, caps.len() as int, u, v));
    }
    if exists|i: int| 0 <= i < caps.len() && caps[i].0 == (v, u) && flow[i].1 > 0 {
        let i = choose|i: int| 0 <= i < caps.len() && caps[i].0 == (v, u) && flow[i].1 > 0;
        assert(touches(caps, caps.len() as int, u, v));
    }
}

/// Sets every residual entry that an edge of `g` joins from `flow`: the
/// unused capacity forwards and the flow backwards.
fn update_residual(g_f: &mut ResidualNetwork, g: &FlowNetwork, flow: &Flow)
    requires
        old(g_f).wf(),
        old(g_f).n() == g.n(),
        endpoints_below(g.capacities@, g.n()),
        simple_edges(g.capacities@),
        same_edges(g.capacities@, flow@),
    ensures
        final(g_f).wf(),
        final(g_f).n() == old(g_f).n(),
        forall|u: usize, v: usize| #[trigger] final(g_f).entry(u, v) == rebuilt(old(g_f).entry(u, v), g.capacities@, flow@, u, v),
{
    let ghost caps = g.capacities@;
    let ghost start_f = *g_f;
    let m = g.capacities.len();
    let mut i: usize = 0;
    while i < m
        invariant
            i <= m,
            m == caps.len(),
            caps == g.capacities@,
            g_f.wf(),
            g_f.n() == g.n(),
            endpoints_below(caps, g.n()),
            simple_edges(caps),
            same_edges(caps, flow@),
            forall|u: usize, v: usize| #[trigger] g_f.entry(u, v) == (if touches(caps, i as int, u, v) {
                residual(caps, flow@, u, v)
            } else {
                start_f.entry(u, v)
            }),
        decreases m - i,
    {
        let (edge, capacity) = g.capacities[i];
        let amount = flow[i].1;
        assert(flow@[i as int].0 == edge);
        proof {
            lemma_residual_at(caps, flow@, i as int);
        }
        let ghost before = *g_f;
        g_f.update_forward(edge, capacity.saturating_sub(amount));
        g_f.update_backward(edge, amount);
        proof {
            assert forall|u: usize, v: usize| #[trigger] g_f.entry(u, v) == (if touches(caps, i + 1, u, v) {
                residual(caps, flow@, u, v)
            } else {
                start_f.entry(u, v)
            }) by {
                if (u, v) == edge || (u, v) == (edge.1, edge.0) {
                    assert(touches(caps, i + 1, u, v));
                } else {
                    assert(g_f.entry(u, v) == before.entry(u, v));
                    if touches(caps, i + 1, u, v) {
                        let j = choose|j: int| 0 <= j < i + 1 && (caps[j].0 == (u, v) || caps[j].0 == (v, u));
                        assert(j != i);
                        assert(touches(caps, i as int, u, v));
                    }
                    if touches(caps, i as int, u, v) {
                        let j = choose|j: int| 0 <= j < i && (caps[j].0 == (u, v) || caps[j].0 == (v, u));
                        assert(touches(caps, i + 1, u, v));
                    }
                }
            }
        }
        i = i + 1;
    }
}

/// Index of the entry of `flow` for the edge from `u` to `v`, which must exist.
fn edge_index(flow: &Flow, u: usize, v: usize) -> (r: usize)
    requires
        exists|i: int| 0 <= i < flow.len() && flow@[i].0 == (u, v),
    ensures
        r < flow.len(),
        flow@[r as int].0 == (u, v),
{
    let mut k: usize = 0;
    while k < flow.len()
        invariant
            k <= flow.len(),
            forall|j: int| 0 <= j < k ==> flow@[j].0 != (u, v),
            exists|i: int| 0 <= i < flow.len() && flow@[i].0 == (u, v),
        decreases flow.len() - k,
    {
        if flow[k].0.0 == u && flow[k].0.1 == v {
            return k;
        }
        k = k + 1;
    }
    proof {
        let i = choose|i: int| 0 <= i < flow.len() && flow@[i].0 == (u, v);
        assert(flow@[i].0 != (u, v));
    }
    0
}

/// Pushes `b` units along the residual edge from `u` to `v`: more flow on
/// the original edge from `u` to `v`, or less on the one from `v` to `u`.
/// Returns the index of the edge changed.
fn push_step(flow: &mut Flow, caps: &Vec<((usize, usize), usize)>, u: usize, v: usize, b: usize, dir: Direction) -> (idx: usize)
    requires
        simple_edges(caps@),
        feasible(caps@, old(flow)@),
        b >= 1,
        residual(caps@, old(flow)@, u, v) is Some,
        (residual(caps@, old(flow)@, u, v)->Some_0).1 == dir,
        b <= (residual(caps@, old(flow)@, u, v)->Some_0).0,
    ensures
        idx < caps.len(),
        feasible(caps@, final(flow)@),
        final(flow)@ == old(flow)@.update(idx as int, (old(flow)@[idx as int].0, final(flow)@[idx as int].1)),
        dir == Direction::Forwards ==> caps@[idx as int].0 == (u, v) && final(flow)@[idx as int].1 == old(flow)@[idx as int].1 + b,
        dir == Direction::Backwards ==> caps@[idx as int].0 == (v, u) && final(flow)@[idx as int].1 == old(flow)@[idx as int].1 - b,
        forall|x: usize| #[trigger] in_flow(final(flow)@, x) - out_flow(final(flow)@, x) == in_flow(old(flow)@, x) - out_flow(old(flow)@, x)
            + (if x == v { b as int } else { 0 }) - (if x == u { b as int } else { 0 }),
        forall|x: usize| #[trigger] out_flow(final(flow)@, x) == out_flow(old(flow)@, x)
            + (if dir == Direction::Forwards && x == u { b as int } else { 0 })
            - (if dir == Direction::Backwards && x == v { b as int } else { 0 }),
{
    let ghost f0 = flow@;
    let ghost m = caps@.len() as int;
    match dir {
        Direction::Forwards => {
            proof {
                let i0 = choose|i: int| 0 <= i < caps@.len() && caps@[i].0 == (u, v) && f0[i].1 < caps@[i].1;
                assert(flow@[i0].0 == (u, v));
            }
            let idx = edge_index(flow, u, v);
            let cur = flow[idx].1;
            proof {
                let i0 = choose|i: int| 0 <= i < caps@.len() && caps@[i].0 == (u, v) && f0[i].1 < caps@[i].1;
                assert(caps@[idx as int].0 == caps@[i0].0);
                assert(idx == i0);
            }
            flow.set(idx, ((u, v), cur + b));
            proof {
                assert(flow@ == f0.update(idx as int, (f0[idx as int].0, (cur + b) as usize)));
                assert forall|x: usize| #[trigger] out_flow(flow@, x) == out_flow(f0, x)
                    + (if x == u { b as int } else { 0 }) by {
                    lemma_flow_sum_update(f0, idx as int, (cur + b) as usize, x, true, m);
                }
                assert forall|x: usize| #[trigger] in_flow(flow@, x) == in_flow(f0, x)
                    + (if x == v { b as int } else { 0 }) by {
                    lemma_flow_sum_update(f0, idx as int, (cur + b) as usize, x, false, m);
                }
            }
            idx
        },
        Direction::Backwards => {
            proof {
                let i0 = choose|i: int| 0 <= i < caps@.len() && caps@[i].0 == (v, u) && f0[i].1 > 0;
                assert(flow@[i0].0 == (v, u));
            }
            let idx = edge_index(flow, v, u);
            let cur = flow[idx].1;
            proof {
                let i0 = choose|i: int| 0 <= i < caps@.len() && caps@[i].0 == (v, u) && f0[i].1 > 0;
                assert(caps@[idx as int].0 == caps@[i0].0);
                assert(idx == i0);
            }
            flow.set(idx, ((v, u), cur - b));
            proof {
                assert(flow@ == f0.update(idx as int, (f0[idx as int].0, (cur - b) as usize)));
                assert forall|x: usize| #[trigger] out_flow(flow@, x) == out_flow(f0, x)
                    - (if x == v { b as int } else { 0 }) by {
                    lemma_flow_sum_update(f0, idx as int, (cur - b) as usize, x, true, m);
                }
                assert forall|x: usize| #[trigger] in_flow(flow@, x) == in_flow(f0, x)
                    - (if x == u { b as int } else { 0 }) by {
                    lemma_flow_sum_update(f0, idx as int, (cur - b) as usize, x, false, m);
                }
            }
            idx
        },
    }
}

/// The residual entry of a pair depends only on the flow on the edges that join it.
proof fn lemma_residual_local(caps: Seq<((usize, usize), usize)>, f1: Seq<((usize, usize), usize)>, f2: Seq<((usize, usize), usize)>, u: usize, v: usize)
    requires
        simple_edges(caps),
        same_edges(caps, f1),
        same_edges(caps, f2),
        forall|i: int| 0 <= i < caps.len() && (caps[i].0 == (u, v) || caps[i].0 == (v, u)) ==> (#[trigger] f1[i]).1 == f2[i].1,
    ensures
        residual(caps, f1, u, v) == residual(caps, f2, u, v),
{
    if exists|i: int| 0 <= i < caps.len() && caps[i].0 == (u, v) {
        let i = choose|i: int| 0 <= i < caps.len() && caps[i].0 == (u, v);
        lemma_residual_at(caps, f1, i);
        lemma_residual_at(caps, f2, i);
    } else if exists|i: int| 0 <= i < caps.len() && caps[i].0 == (v, u) {
        let i = choose|i: int| 0 <= i < caps.len() && caps[i].0 == (v, u);
        lemma_residual_at(caps, f1, i);
        lemma_residual_at(caps, f2, i);
    } else {
        lemma_untouched_none(caps, f1, u, v);
        lemma_untouched_none(caps, f2, u, v);
    }
}

/// Pushes `b` units along `path`, a residual path from the source to the sink
/// with no repeated vertex whose every edge has weight at least `b`.
#[verifier::rlimit(100)]
#[verifier::spinoff_prover]
fn augment(flow: &mut Flow, net: &FlowNetwork, g_f: &ResidualNetwork, path: &Vec<usize>, b: usize)
    requires
        net.valid(),
        g_f.wf(),
        g_f.n() == net.n(),
        forall|x: usize, y: usize| #[trigger] g_f.entry(x, y) == residual(net.capacities@, old(flow)@, x, y),
        feasible(net.capacities@, old(flow)@),
        forall|i: int| 0 <= i < net.capacities@.len() && net.capacities@[i].0.1 == net.start ==> (#[trigger] old(flow)@[i]).1 == 0,
        path@.len() >= 2,
        path@[0] == net.start,
        path@.last() == net.end,
        path@.no_duplicates(),
        forall|k: int| 0 <= k < path@.len() ==> #[trigger] path@[k] < net.n(),
        forall|k: int| 0 <= k < path@.len() - 1 ==>
            #[trigger] residual(net.capacities@, old(flow)@, path@[k], path@[k + 1]) is Some
            && b <= step_weight(net.capacities@, old(flow)@, path@, k),
        b >= 1,
    ensures
        feasible(net.capacities@, final(flow)@),
        forall|i: int| 0 <= i < net.capacities@.len() && net.capacities@[i].0.1 == net.start ==> (#[trigger] final(flow)@[i]).1 == 0,
        forall|x: usize| #[trigger] in_flow(final(flow)@, x) - out_flow(final(flow)@, x) == in_flow(old(flow)@, x) - out_flow(old(flow)@, x)
            + (if x == net.end { b as int } else { 0 }) - (if x == net.start { b as int } else { 0 }),
        out_flow(final(flow)@, net.start) == out_flow(old(flow)@, net.start) + b,
{
    let ghost caps = net.capacities@;
    let ghost p = path@;
    let ghost f0 = flow@;
    let ghost m = caps.len();
    let s = net.start;
    let len = path.len();
    let mut j: usize = 0;
    while j + 1 < len
        invariant
            j + 1 <= len,
            len == p.len(),
            len >= 2,
            p == path@,
            p[0] == s,
            p.last() == net.end,
            p.no_duplicates(),
            caps == net.capacities@,
            m == caps.len(),
            s == net.start,
            net.valid(),
            g_f.wf(),
            g_f.n() == net.n(),
            forall|x: usize, y: usize| #[trigger] g_f.entry(x, y) == residual(caps, f0, x, y),
            forall|k: int| 0 <= k < p.len() ==> #[trigger] p[k] < net.n(),
            forall|k: int| 0 <= k < p.len() - 1 ==>
                #[trigger] residual(caps, f0, p[k], p[k + 1]) is Some && b <= step_weight(caps, f0, p, k),
            b >= 1,
            feasible(caps, f0),
            forall|i: int| 0 <= i < m && caps[i].0.1 == s ==> (#[trigger] f0[i]).1 == 0,
            feasible(caps, flow@),
            forall|i: int| 0 <= i < m && !on_prefix(caps[i].0, p, j as int) ==> (#[trigger] flow@[i]).1 == f0[i].1,
            forall|x: usize| #[trigger] in_flow(flow@, x) - out_flow(flow@, x) == in_flow(f0, x) - out_flow(f0, x)
                + (if x == p[j as int] { b as int } else { 0 }) - (if x == s { b as int } else { 0 }),
            forall|i: int| 0 <= i < m && caps[i].0.1 == s ==> (#[trigger] flow@[i]).1 == 0,
            out_flow(flow@, s) == out_flow(f0, s) + (if j > 0 { b as int } else { 0 }),
        decreases len - j,
    {
        let u = path[j];
        let v = path[j + 1];
        let ghost before = flow@;
        proof {
            assert(residual(caps, f0, p[j as int], p[j + 1]) is Some);
            assert(u != v);
            assert(j > 0 ==> u != s);
            assert(v != s);
            assert forall|i: int| 0 <= i < m && (caps[i].0 == (u, v) || caps[i].0 == (v, u)) implies (#[trigger] flow@[i]).1 == f0[i].1 by {
                if on_prefix(caps[i].0, p, j as int) {
                    let k = choose|k: int| #![trigger p[k]] 0 <= k < j && (caps[i].0 == (p[k], p[k + 1]) || caps[i].0 == (p[k + 1], p[k]));
                    if caps[i].0 == (p[k + 1], p[k]) && caps[i].0 == (v, u) {
                        assert(k + 1 == j);
                    }
                }
            }
            lemma_residual_local(caps, flow@, f0, u, v);
        }
        let (_, dir) = g_f.weight(u, v);
        let idx = push_step(flow, &net.capacities, u, v, b, dir);
        proof {
            assert forall|i: int| 0 <= i < m && !on_prefix(caps[i].0, p, j + 1) implies (#[trigger] flow@[i]).1 == f0[i].1 by {
                let jj = j as int;
                if i == idx {
                    assert(caps[i].0 == (p[jj], p[jj + 1]) || caps[i].0 == (p[jj + 1], p[jj]));
                    assert(on_prefix(caps[i].0, p, j + 1));
                } else {
                    assert(flow@[i] == before[i]);
                    if on_prefix(caps[i].0, p, j as int) {
                        let k = choose|k: int| #![trigger p[k]] 0 <= k < j && (caps[i].0 == (p[k], p[k + 1]) || caps[i].0 == (p[k + 1], p[k]));
                        assert(on_prefix(caps[i].0, p, j + 1));
                    }
                }
            }
            assert forall|i: int| 0 <= i < m && caps[i].0.1 == s implies (#[trigger] flow@[i]).1 == 0 by {
                if i != idx {
                    assert(flow@[i] == before[i]);
                } else if dir == Direction::Backwards {
                    assert(before[i].1 == 0);
                }
            }
        }
        j = j + 1;
    }
}

/// Amounts that are zero on every entry entering `v` sum to zero there.
proof fn lemma_in_zero(es: Seq<((usize, usize), usize)>, v: usize, k: int)
    requires
        0 <= k <= es.len(),
        forall|i: int| 0 <= i < es.len() && es[i].0.1 == v ==> (#[trigger] es[i]).1 == 0,
    ensures
        flow_sum(es, v, false, k) == 0,
    decreases k,
{
    if k > 0 {
        lemma_in_zero(es, v, k - 1);
    }
}

/// `pair` joins the ends of one of the first `j` steps of `p`, in either direction.
pub open spec fn on_prefix(pair: (usize, usize), p: Seq<usize>, j: int) -> bool {
    exists|k: int| #![trigger p[k]] 0 <= k < j && (pair == (p[k], p[k + 1]) || pair == (p[k + 1], p[k]))
}

/// The weight of the residual edge of step `k` of `p`.
pub open spec fn step_weight(caps: Seq<((usize, usize), usize)>, flow: Seq<((usize, usize), usize)>, p: Seq<usize>, k: int) -> int {
    (residual(caps, flow, p[k], p[k + 1])->Some_0).0 as int
}

impl FlowNetwork {
    /// Computes a maximum flow from `start` to `end` by the Edmonds-Karp
    /// method: while the residual network has a path from the source to the
    /// sink, push its bottleneck along the path found by breadth-first search.
    /// Returns the flow on each edge and its total out of the source.
    #[verifier::rlimit(100)]
    #[verifier::spinoff_prover]
    pub fn ford_fulkerson(&self) -> (r: (Flow, usize))
        requires
            self.valid(),
        ensures
            feasible(self.capacities@, r.0@),
            conserves(r.0@, self.n(), self.start, self.end),
            in_flow(r.0@, self.start) == 0,
            r.1 == out_flow(r.0@, self.start),
            r.1 == flow_value(r.0@, self.start),
            !augmentable(self.capacities@, r.0@, self.start, self.end),
            r.1 == cut_capacity(self.capacities@, residual_reach(self.capacities@, r.0@, self.start)),
            forall|other: Seq<((usize, usize), usize)>|
                feasible(self.capacities@, other) && conserves(other, self.n(), self.start, self.end)
                    ==> #[trigger] flow_value(other, self.start) <= r.1,
    {
        let ghost caps = self.capacities@;
        let s = self.start;
        let t = self.end;
        let n = self.size();
        let m = self.capacities.len();
        let mut g_f = ResidualNetwork::new(n);
        let mut flow: Flow = Vec::new();
        let mut i: usize = 0;
        while i < m
            invariant
                i <= m,
                m == caps.len(),
                caps == self.capacities@,
                flow.len() == i,
                forall|j: int| 0 <= j < i ==> (#[trigger] flow@[j]).0 == caps[j].0 && flow@[j].1 == 0,
            decreases m - i,
        {
            flow.push((self.capacities[i].0, 0));
            i = i + 1;
        }
        proof {
            assert forall|v: usize| #[trigger] in_flow(flow@, v) == out_flow(flow@, v) by {
                lemma_flow_sum_zero(flow@, v, false, m as int);
                lemma_flow_sum_zero(flow@, v, true, m as int);
            }
        }
        update_residual(&mut g_f, self, &flow);
        proof {
            assert forall|u: usize, v: usize| #[trigger] g_f.entry(u, v) == residual(caps, flow@, u, v) by {
                if !touches(caps, m as int, u, v) {
                    lemma_untouched_none(caps, flow@, u, v);
                }
            }
        }
        loop
            invariant
                caps == self.capacities@,
                m == caps.len(),
                n == self.n(),
                s == self.start,
                t == self.end,
                self.valid(),
                g_f.wf(),
                g_f.n() == n,
                feasible(caps, flow@),
                conserves(flow@, n as nat, s, t),
                forall|i: int| 0 <= i < m && caps[i].0.1 == s ==> (#[trigger] flow@[i]).1 == 0,
                forall|u: usize, v: usize| #[trigger] g_f.entry(u, v) == residual(caps, flow@, u, v),
            ensures
                feasible(caps, flow@),
                conserves(flow@, n as nat, s, t),
                forall|i: int| 0 <= i < m && caps[i].0.1 == s ==> (#[trigger] flow@[i]).1 == 0,
                !augmentable(caps, flow@, s, t),
            decreases out_flow(caps, s) - out_flow(flow@, s),
        {
            let ghost adj = adj_view(g_f.adj_list@);
            let path = match find_path(&g_f.adj_list, s, t) {
                Some(p) => p,
                None => {
                    proof {
                        if augmentable(caps, flow@, s, t) {
                            let p = choose|p: Seq<usize>| residual_path(caps, flow@, p, s, t);
                            assert forall|k: int| 0 <= k < p.len() - 1 implies #[trigger] has_edge(adj, p[k], p[k + 1]) by {
                                assert(residual(caps, flow@, p[k], p[k + 1]) is Some);
                                assert(g_f.entry(p[k], p[k + 1]) is Some);
                                g_f.lemma_adj_matches(p[k], p[k + 1]);
                            }
                            assert(is_path(adj, p, s, t));
                        }
                    }
                    break;
                },
            };
            let ghost p = path@;
            let ghost f0 = flow@;
            let len = path.len();
            proof {
                assert(p.len() >= 2) by {
                    if p.len() < 2 {
                        assert(p[0] == p.last());
                    }
                }
                assert forall|k: int| 0 <= k < p.len() - 1 implies
                    #[trigger] residual(caps, f0, p[k], p[k + 1]) is Some && p[k] < n && step_weight(caps, f0, p, k) >= 1 by {
                    assert(has_edge(adj, p[k], p[k + 1]));
                    g_f.lemma_adj_matches(p[k], p[k + 1]);
                    assert(g_f.adj_list[p[k] as int]@.contains(p[k + 1]));
                    let kk = g_f.adj_list[p[k] as int]@.index_of(p[k + 1]);
                    assert(g_f.edges[p[k] as int][kk].0 > 0);
                }
            }
            proof {
                let k0: int = 0;
                assert(residual(caps, f0, p[k0], p[k0 + 1]) is Some);
                assert(g_f.entry(p[0], p[1]) is Some);
            }
            // the bottleneck: the least weight along the path
            let first = g_f.weight(path[0], path[1]);
            let mut b: usize = first.0;
            let mut j: usize = 1;
            while j + 1 < len
                invariant
                    1 <= j < len,
                    len == p.len(),
                    p == path@,
                    g_f.wf(),
                    g_f.n() == n,
                    forall|u: usize, v: usize| #[trigger] g_f.entry(u, v) == residual(caps, f0, u, v),
                    forall|k: int| 0 <= k < p.len() - 1 ==>
                        #[trigger] residual(caps, f0, p[k], p[k + 1]) is Some && p[k] < n && step_weight(caps, f0, p, k) >= 1,
                    b >= 1,
                    forall|k: int| 0 <= k < j ==> b <= #[trigger] step_weight(caps, f0, p, k),
                decreases len - j,
            {
                let (w, _) = g_f.weight(path[j], path[j + 1]);
                proof {
                    assert(residual(caps, f0, p[j as int], p[j + 1]) is Some);
                }
                if w < b {
                    b = w;
                }
                j = j + 1;
            }
            proof {
                assert forall|k: int| 0 <= k < p.len() implies #[trigger] p[k] < n by {
                    if k < p.len() - 1 {
                        assert(residual(caps, f0, p[k], p[k + 1]) is Some && p[k] < n);
                    }
                }
            }
            augment(&mut flow, self, &g_f, &path, b);
            proof {
                assert forall|x: usize| x < n && x != s && x != t implies #[trigger] in_flow(flow@, x) == out_flow(flow@, x) by {
                    assert(in_flow(f0, x) == out_flow(f0, x));
                    assert(in_flow(flow@, x) - out_flow(flow@, x) == in_flow(f0, x) - out_flow(f0, x));
                }
                lemma_flow_sum_le_caps(caps, flow@, s, true, m as int);
            }
            let ghost mid = g_f;
            update_residual(&mut g_f, self, &flow);
            proof {
                assert forall|x: usize, y: usize| #[trigger] g_f.entry(x, y) == residual(caps, flow@, x, y) by {
                    if !touches(caps, m as int, x, y) {
                        lemma_untouched_none(caps, flow@, x, y);
                        lemma_untouched_none(caps, f0, x, y);
                        assert(mid.entry(x, y) == residual(caps, f0, x, y));
                    }
                }
            }
        }
        proof {
            lemma_flow_sum_le_caps(caps, flow@, s, true, m as int);
            lemma_in_zero(flow@, s, m as int);
        }
        let mut total: usize = 0;
        let mut k: usize = 0;
        while k < m
            invariant
                k <= m,
                m == flow.len(),
                total == flow_sum(flow@, s, true, k as int),
                flow_sum(flow@, s, true, m as int) <= usize::MAX,
            decreases m - k,
        {
            proof {
                lemma_flow_sum_mono(flow@, s, true, k + 1, m as int);
            }
            if flow[k].0.0 == s {
                total = total + flow[k].1;
            }
            k = k + 1;
        }
        proof {
            lemma_max_flow_min_cut(self, flow@);
            assert forall|other: Seq<((usize, usize), usize)>|
                feasible(caps, other) && conserves(other, self.n(), s, t) implies #[trigger] flow_value(other, s) <= total by {
                lemma_no_augmenting_path_is_maximum(self, flow@, other);
            }
        }
        (flow, total)
    }
}

} // verus!
