use vstd::prelude::*;

use crate::flow_network::{endpoints_below, FlowNetwork};
use crate::ford_fulkerson::{
    augmentable, conserves, feasible, flow_sum, flow_value, in_flow, lemma_residual_at, out_flow, residual,
    residual_path,
};

verus! {

/// Sum over the first `k` entries of the amount times the number of ends
/// that leave `cut`: +1 for an entry from inside to outside, -1 for one from
/// outside to inside, 0 otherwise.
pub open spec fn crossing_sum(es: Seq<((usize, usize), usize)>, cut: Set<usize>, k: int) -> int
    decreases k,
{
    if k <= 0 {
        0
    } else {
        crossing_sum(es, cut, k - 1) + (if cut.contains(es[k - 1].0.0) { es[k - 1].1 as int } else { 0 }) - (if cut.contains(
            es[k - 1].0.1,
        ) {
            es[k - 1].1 as int
        } else {
            0
        })
    }
}

/// Sum of the capacities of the first `k` edges that leave `cut`.
pub open spec fn cut_sum(caps: Seq<((usize, usize), usize)>, cut: Set<usize>, k: int) -> int
    decreases k,
{
    if k <= 0 {
        0
    } else {
        cut_sum(caps, cut, k - 1) + (if cut.contains(caps[k - 1].0.0) && !cut.contains(caps[k - 1].0.1) {
            caps[k - 1].1 as int
        } else {
            0
        })
    }
}

/// Capacity of the cut between `cut` and the other vertices: the total
/// capacity of the edges that leave `cut`.
pub open spec fn cut_capacity(caps: Seq<((usize, usize), usize)>, cut: Set<usize>) -> int {
    cut_sum(caps, cut, caps.len() as int)
}

/// The vertices that the residual network of `flow` reaches from `s`.
pub open spec fn residual_reach(caps: Seq<((usize, usize), usize)>, flow: Seq<((usize, usize), usize)>, s: usize) -> Set<usize> {
    Set::new(|v: usize| augmentable(caps, flow, s, v))
}

/// Net amount leaving the vertices of `cut` below `nv`, counting the first `k` entries.
spec fn net_out(es: Seq<((usize, usize), usize)>, cut: Set<usize>, nv: int, k: int) -> int
    decreases nv,
{
    if nv <= 0 {
        0
    } else {
        net_out(es, cut, nv - 1, k) + (if cut.contains((nv - 1) as usize) {
            flow_sum(es, (nv - 1) as usize, true, k) - flow_sum(es, (nv - 1) as usize, false, k)
        } else {
            0
        })
    }
}

proof fn lemma_net_out_step(es: Seq<((usize, usize), usize)>, cut: Set<usize>, nv: int, k: int)
    requires
        0 <= k < es.len(),
        0 <= nv <= usize::MAX + 1,
    ensures
        net_out(es, cut, nv, k + 1) == net_out(es, cut, nv, k)
            + (if es[k].0.0 < nv && cut.contains(es[k].0.0) { es[k].1 as int } else { 0 })
            - (if es[k].0.1 < nv && cut.contains(es[k].0.1) { es[k].1 as int } else { 0 }),
    decreases nv,
{
    if nv > 0 {
        lemma_net_out_step(es, cut, nv - 1, k);
    }
}

proof fn lemma_net_out_crossing(es: Seq<((usize, usize), usize)>, cut: Set<usize>, nv: nat, k: int)
    requires
        0 <= k <= es.len(),
        endpoints_below(es, nv),
        nv <= usize::MAX + 1,
    ensures
        net_out(es, cut, nv as int, k) == crossing_sum(es, cut, k),
    decreases k,
{
    if k > 0 {
        lemma_net_out_crossing(es, cut, nv, k - 1);
        lemma_net_out_step(es, cut, nv as int, k - 1);
        lemma_net_out_zero(es, cut, nv as int);
    } else {
        lemma_net_out_zero(es, cut, nv as int);
    }
}

proof fn lemma_net_out_zero(es: Seq<((usize, usize), usize)>, cut: Set<usize>, nv: int)
    ensures
        net_out(es, cut, nv, 0) == 0,
    decreases nv,
{
    if nv > 0 {
        lemma_net_out_zero(es, cut, nv - 1);
    }
}

proof fn lemma_net_out_source(flow: Seq<((usize, usize), usize)>, cut: Set<usize>, nv: int, n: nat, s: usize, t: usize)
    requires
        nv <= n,
        nv <= usize::MAX + 1,
        conserves(flow, n, s, t),
        !cut.contains(t),
    ensures
        net_out(flow, cut, nv, flow.len() as int) == (if s < nv && cut.contains(s) {
            out_flow(flow, s) - in_flow(flow, s)
        } else {
            0
        }),
    decreases nv,
{
    if nv > 0 {
        lemma_net_out_source(flow, cut, nv - 1, n, s, t);
        let v = (nv - 1) as usize;
        if v != s && cut.contains(v) {
            assert(in_flow(flow, v) == out_flow(flow, v));
        }
    }
}

/// The value of a conserving flow is the net amount it sends across any cut
/// that holds the source and not the sink.
proof fn lemma_value_crosses(caps: Seq<((usize, usize), usize)>, flow: Seq<((usize, usize), usize)>, n: nat, s: usize, t: usize, cut: Set<usize>)
    requires
        endpoints_below(caps, n),
        feasible(caps, flow),
        conserves(flow, n, s, t),
        s < n,
        cut.contains(s),
        !cut.contains(t),
    ensures
        flow_value(flow, s) == crossing_sum(flow, cut, flow.len() as int),
{
    let nv: nat = if n > usize::MAX + 1 { (usize::MAX + 1) as nat } else { n };
    assert(endpoints_below(flow, nv)) by {
        assert forall|i: int| 0 <= i < flow.len() implies (#[trigger] flow[i]).0.0 < nv && flow[i].0.1 < nv by {
            assert(caps[i].0 == flow[i].0);
        }
    }
    lemma_net_out_crossing(flow, cut, nv, flow.len() as int);
    lemma_net_out_source(flow, cut, nv as int, n, s, t);
}

proof fn lemma_crossing_le_cut(caps: Seq<((usize, usize), usize)>, flow: Seq<((usize, usize), usize)>, cut: Set<usize>, k: int)
    requires
        feasible(caps, flow),
        0 <= k <= caps.len(),
    ensures
        crossing_sum(flow, cut, k) <= cut_sum(caps, cut, k),
    decreases k,
{
    if k > 0 {
        lemma_crossing_le_cut(caps, flow, cut, k - 1);
        assert(flow[k - 1].0 == caps[k - 1].0 && flow[k - 1].1 <= caps[k - 1].1);
    }
}

/// No feasible flow that conserves at every vertex but the source and the
/// sink has a value above the capacity of a cut that holds the source and
/// not the sink.
pub proof fn lemma_flow_le_cut(net: &FlowNetwork, flow: Seq<((usize, usize), usize)>, cut: Set<usize>)
    requires
        net.valid(),
        feasible(net.capacities@, flow),
        conserves(flow, net.n(), net.start, net.end),
        cut.contains(net.start),
        !cut.contains(net.end),
    ensures
        flow_value(flow, net.start) <= cut_capacity(net.capacities@, cut),
{
    lemma_value_crosses(net.capacities@, flow, net.n(), net.start, net.end, cut);
    lemma_crossing_le_cut(net.capacities@, flow, cut, flow.len() as int);
}

/// Following a residual edge from a reached vertex reaches its head.
proof fn lemma_reach_step(caps: Seq<((usize, usize), usize)>, flow: Seq<((usize, usize), usize)>, s: usize, u: usize, v: usize)
    requires
        residual_reach(caps, flow, s).contains(u),
        residual(caps, flow, u, v) is Some,
    ensures
        residual_reach(caps, flow, s).contains(v),
{
    let p = choose|p: Seq<usize>| residual_path(caps, flow, p, s, u);
    let q = p.push(v);
    assert forall|i: int| 0 <= i < q.len() - 1 implies (#[trigger] residual(caps, flow, q[i], q[i + 1])) is Some by {
        if i < p.len() - 1 {
            assert(q[i] == p[i] && q[i + 1] == p[i + 1]);
            assert(residual(caps, flow, p[i], p[i + 1]) is Some);
        } else {
            assert(q[i] == u && q[i + 1] == v);
        }
    }
    assert(residual_path(caps, flow, q, s, v));
}

proof fn lemma_reach_cut_tight(caps: Seq<((usize, usize), usize)>, flow: Seq<((usize, usize), usize)>, s: usize, k: int)
    requires
        crate::ford_fulkerson::simple_edges(caps),
        feasible(caps, flow),
        0 <= k <= caps.len(),
    ensures
        crossing_sum(flow, residual_reach(caps, flow, s), k) == cut_sum(caps, residual_reach(caps, flow, s), k),
    decreases k,
{
    if k > 0 {
        lemma_reach_cut_tight(caps, flow, s, k - 1);
        let cut = residual_reach(caps, flow, s);
        let i = k - 1;
        let (a, b) = caps[i].0;
        assert(flow[i].0 == caps[i].0);
        lemma_residual_at(caps, flow, i);
        if cut.contains(a) && !cut.contains(b) && flow[i].1 < caps[i].1 {
            lemma_reach_step(caps, flow, s, a, b);
        }
        if !cut.contains(a) && cut.contains(b) && flow[i].1 > 0 {
            lemma_reach_step(caps, flow, s, b, a);
        }
    }
}

/// Max-flow/min-cut: when a feasible conserving flow leaves no augmenting
/// path, the vertices that its residual network reaches from the source form
/// a cut that holds the source and not the sink, and the value of the flow
/// equals the capacity of that cut.
pub proof fn lemma_max_flow_min_cut(net: &FlowNetwork, flow: Seq<((usize, usize), usize)>)
    requires
        net.valid(),
        feasible(net.capacities@, flow),
        conserves(flow, net.n(), net.start, net.end),
        !augmentable(net.capacities@, flow, net.start, net.end),
    ensures
        residual_reach(net.capacities@, flow, net.start).contains(net.start),
        !residual_reach(net.capacities@, flow, net.start).contains(net.end),
        flow_value(flow, net.start) == cut_capacity(net.capacities@, residual_reach(net.capacities@, flow, net.start)),
{
    let caps = net.capacities@;
    let s = net.start;
    let p = seq![s];
    assert(residual_path(caps, flow, p, s, s));
    let cut = residual_reach(caps, flow, s);
    lemma_value_crosses(caps, flow, net.n(), s, net.end, cut);
    lemma_reach_cut_tight(caps, flow, s, caps.len() as int);
}

/// A feasible conserving flow that leaves no augmenting path has the largest
/// value of all feasible conserving flows.
pub proof fn lemma_no_augmenting_path_is_maximum(net: &FlowNetwork, flow: Seq<((usize, usize), usize)>, other: Seq<((usize, usize), usize)>)
    requires
        net.valid(),
        feasible(net.capacities@, flow),
        conserves(flow, net.n(), net.start, net.end),
        !augmentable(net.capacities@, flow, net.start, net.end),
        feasible(net.capacities@, other),
        conserves(other, net.n(), net.start, net.end),
    ensures
        flow_value(other, net.start) <= flow_value(flow, net.start),
{
    lemma_max_flow_min_cut(net, flow);
    lemma_flow_le_cut(net, other, residual_reach(net.capacities@, flow, net.start));
}

/// Two feasible conserving flows that both leave no augmenting path have the
/// same value, whichever augmenting paths led to them.
pub proof fn lemma_maximum_value_unique(net: &FlowNetwork, f1: Seq<((usize, usize), usize)>, f2: Seq<((usize, usize), usize)>)
    requires
        net.valid(),
        feasible(net.capacities@, f1),
        conserves(f1, net.n(), net.start, net.end),
        !augmentable(net.capacities@, f1, net.start, net.end),
        feasible(net.capacities@, f2),
        conserves(f2, net.n(), net.start, net.end),
        !augmentable(net.capacities@, f2, net.start, net.end),
    ensures
        flow_value(f1, net.start) == flow_value(f2, net.start),
{
    lemma_no_augmenting_path_is_maximum(net, f1, f2);
    lemma_no_augmenting_path_is_maximum(net, f2, f1);
}

} // verus!
