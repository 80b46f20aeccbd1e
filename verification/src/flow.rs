//! Maximum flow on ac-library's `MfGraph`: the graph's edges as a model,
//! the calls the library makes, and the cut argument that ties a maximum
//! flow to a minimum cut.

use vstd::prelude::*;

verus! {

#[verifier::external_type_specification]
#[verifier::external_body]
#[verifier::reject_recursive_types(Cap)]
pub struct ExMfGraph<Cap>(ac_library::MfGraph<Cap>);

/// The edges of a flow graph as (from, to, capacity, flow), in the order they
/// were added.
pub uninterp spec fn mf_edges(g: ac_library::MfGraph<i64>) -> Seq<(usize, usize, i64, i64)>;

/// The number of vertices a flow graph was made with.
pub uninterp spec fn mf_nodes(g: ac_library::MfGraph<i64>) -> usize;

/// Sum of the flows of the edges leaving `v`.
pub open spec fn flow_out(es: Seq<(usize, usize, i64, i64)>, v: int) -> int
    decreases es.len(),
{
    if es.len() == 0 {
        0
    } else {
        flow_out(es.drop_last(), v) + if es.last().0 == v { es.last().3 as int } else { 0int }
    }
}

/// Sum of the flows of the edges entering `v`.
pub open spec fn flow_in(es: Seq<(usize, usize, i64, i64)>, v: int) -> int
    decreases es.len(),
{
    if es.len() == 0 {
        0
    } else {
        flow_in(es.drop_last(), v) + if es.last().1 == v { es.last().3 as int } else { 0int }
    }
}

/// Sum of the capacities of the edges leaving `v`.
pub open spec fn cap_out(es: Seq<(usize, usize, i64, i64)>, v: int) -> int
    decreases es.len(),
{
    if es.len() == 0 {
        0
    } else {
        cap_out(es.drop_last(), v) + if es.last().0 == v { es.last().2 as int } else { 0int }
    }
}

/// Every flow is between 0 and its capacity.
pub open spec fn flows_valid(es: Seq<(usize, usize, i64, i64)>) -> bool {
    forall|k: int| 0 <= k < es.len() ==> 0 <= (#[trigger] es[k]).3 <= es[k].2
}

/// Flow is conserved at every vertex but `s` and `t`.
pub open spec fn conserved(es: Seq<(usize, usize, i64, i64)>, n: int, s: int, t: int) -> bool {
    forall|v: int| 0 <= v < n && v != s && v != t ==> #[trigger] flow_in(es, v) == flow_out(es, v)
}

/// The two edge lists differ at most in their flows.
pub open spec fn same_edges(a: Seq<(usize, usize, i64, i64)>, b: Seq<(usize, usize, i64, i64)>) -> bool {
    &&& a.len() == b.len()
    &&& forall|k: int| 0 <= k < a.len() ==> (#[trigger] a[k]).0 == b[k].0 && a[k].1 == b[k].1 && a[k].2 == b[k].2
}

/// Edge `k` leaves room to send flow from `u` to `v`: it runs from `u` to `v`
/// below its capacity, or from `v` to `u` carrying flow that can be sent back.
pub open spec fn residual_edge(es: Seq<(usize, usize, i64, i64)>, k: int, u: int, v: int) -> bool {
    ||| (es[k].0 == u && es[k].1 == v && es[k].3 < es[k].2)
    ||| (es[k].1 == u && es[k].0 == v && es[k].3 > 0)
}

/// Some edge leaves room to send flow from `u` to `v`.
pub open spec fn residual_step(es: Seq<(usize, usize, i64, i64)>, u: int, v: int) -> bool {
    exists|k: int| 0 <= k < es.len() && #[trigger] residual_edge(es, k, u, v)
}

/// A walk from `s` whose every step has room left.
pub open spec fn residual_walk(es: Seq<(usize, usize, i64, i64)>, s: int, w: Seq<int>) -> bool {
    &&& w.len() >= 1
    &&& w[0] == s
    &&& forall|i: int, j: int| 0 <= i && j == i + 1 && j < w.len() ==> #[trigger] residual_step(es, w[i], w[j])
}

/// `v` can be reached from `s` in the residual graph.
pub open spec fn residual_reach(es: Seq<(usize, usize, i64, i64)>, s: int, v: int) -> bool {
    exists|w: Seq<int>| #[trigger] residual_walk(es, s, w) && w.last() == v
}

/// ac-library's `MfGraph::new`: a flow graph with `n` vertices and no edge.
#[verifier::external_body]
pub(crate) fn mf_new(n: usize) -> (g: ac_library::MfGraph<i64>)
    ensures
        mf_edges(g) == Seq::<(usize, usize, i64, i64)>::empty(),
        mf_nodes(g) == n,
{
    ac_library::MfGraph::new(n)
}

/// ac-library's `MfGraph::add_edge`: adds the edge `from -> to` with capacity
/// `cap` and no flow, and returns its index (the source asserts that both
/// ends are vertices and that `cap >= 0`).
#[verifier::external_body]
pub(crate) fn mf_add_edge(g: &mut ac_library::MfGraph<i64>, from: usize, to: usize, cap: i64) -> (r: usize)
    requires
        from < mf_nodes(*old(g)),
        to < mf_nodes(*old(g)),
        0 <= cap,
    ensures
        mf_edges(*final(g)) == mf_edges(*old(g)).push((from, to, cap, 0i64)),
        mf_nodes(*final(g)) == mf_nodes(*old(g)),
        r == mf_edges(*old(g)).len(),
{
    g.add_edge(from, to, cap)
}

/// ac-library's `MfGraph::flow`: pushes as much flow from `s` to `t` as the
/// capacities allow (Dinic's algorithm; the source asserts `s != t` and that
/// both are vertices) and returns how much it pushed. Stated: the edges keep
/// their ends and capacities, flows stay within capacities, flow stays
/// conserved at the other vertices, the result is the growth of the net flow
/// out of `s`, and unless the result reached the limit `i64::MAX` the source
/// stopped because `t` could no longer be reached in the residual graph.
#[verifier::external_body]
pub(crate) fn mf_flow(g: &mut ac_library::MfGraph<i64>, s: usize, t: usize) -> (r: i64)
    requires
        s < mf_nodes(*old(g)),
        t < mf_nodes(*old(g)),
        s != t,
        flows_valid(mf_edges(*old(g))),
        conserved(mf_edges(*old(g)), mf_nodes(*old(g)) as int, s as int, t as int),
    ensures
        mf_nodes(*final(g)) == mf_nodes(*old(g)),
        same_edges(mf_edges(*old(g)), mf_edges(*final(g))),
        flows_valid(mf_edges(*final(g))),
        conserved(mf_edges(*final(g)), mf_nodes(*final(g)) as int, s as int, t as int),
        r == (flow_out(mf_edges(*final(g)), s as int) - flow_in(mf_edges(*final(g)), s as int)) - (flow_out(
            mf_edges(*old(g)),
            s as int,
        ) - flow_in(mf_edges(*old(g)), s as int)),
        r < i64::MAX ==> !residual_reach(mf_edges(*final(g)), s as int, t as int),
{
    g.flow(s, t)
}

/// ac-library's `MfGraph::min_cut`: marks the vertices that a breadth-first
/// search from `s` reaches along edges with room left (an edge below its
/// capacity, or an edge carrying flow, taken backwards), that is, exactly the
/// vertices reachable from `s` in the residual graph.
#[verifier::external_body]
pub(crate) fn mf_min_cut(g: &ac_library::MfGraph<i64>, s: usize) -> (r: Vec<bool>)
    requires
        s < mf_nodes(*g),
    ensures
        r@.len() == mf_nodes(*g),
        forall|v: int| 0 <= v < mf_nodes(*g) ==> (r@[v] <==> #[trigger] residual_reach(mf_edges(*g), s as int, v)),
{
    g.min_cut(s)
}

/// The flow on one edge leaving `v` is at most the flow out of `v`.
pub proof fn lemma_edge_flow_le_out(es: Seq<(usize, usize, i64, i64)>, v: int, k: int)
    requires
        flows_valid(es),
        0 <= k < es.len(),
        es[k].0 == v,
    ensures
        es[k].3 <= flow_out(es, v),
    decreases es.len(),
{
    lemma_flow_out_nonneg(es.drop_last(), v);
    if k < es.len() - 1 {
        assert(es.drop_last()[k] == es[k]);
        assert(flows_valid(es.drop_last())) by {
            assert forall|x: int| 0 <= x < es.drop_last().len() implies 0 <= (#[trigger] es.drop_last()[x]).3
                <= es.drop_last()[x].2 by {
                assert(es.drop_last()[x] == es[x]);
            }
        }
        lemma_edge_flow_le_out(es.drop_last(), v, k);
        assert(es.last().3 >= 0);
    }
}

/// Flows out of a vertex add up to a non-negative amount.
pub proof fn lemma_flow_out_nonneg(es: Seq<(usize, usize, i64, i64)>, v: int)
    requires
        forall|k: int| 0 <= k < es.len() ==> 0 <= (#[trigger] es[k]).3,
    ensures
        flow_out(es, v) >= 0,
    decreases es.len(),
{
    if es.len() > 0 {
        assert forall|k: int| 0 <= k < es.drop_last().len() implies 0 <= (#[trigger] es.drop_last()[k]).3 by {
            assert(es.drop_last()[k] == es[k]);
        }
        lemma_flow_out_nonneg(es.drop_last(), v);
        assert(es[es.len() - 1].3 >= 0);
    }
}

/// When edge `k` is the only edge entering `v`, the flow into `v` is its flow.
pub proof fn lemma_single_edge_in(es: Seq<(usize, usize, i64, i64)>, v: int, k: int)
    requires
        0 <= k < es.len(),
        es[k].1 == v,
        forall|x: int| 0 <= x < es.len() && x != k ==> (#[trigger] es[x]).1 != v,
    ensures
        flow_in(es, v) == es[k].3,
    decreases es.len(),
{
    let d = es.drop_last();
    if k < es.len() - 1 {
        assert(d[k] == es[k]);
        assert forall|x: int| 0 <= x < d.len() && x != k implies (#[trigger] d[x]).1 != v by {
            assert(d[x] == es[x]);
        }
        lemma_single_edge_in(d, v, k);
        assert(es.last().1 != v);
    } else {
        lemma_no_edge_in(d, v);
    }
}

/// With no edge entering `v`, no flow enters it.
pub proof fn lemma_no_edge_in(es: Seq<(usize, usize, i64, i64)>, v: int)
    requires
        forall|x: int| 0 <= x < es.len() ==> (#[trigger] es[x]).1 != v,
    ensures
        flow_in(es, v) == 0,
    decreases es.len(),
{
    if es.len() > 0 {
        let d = es.drop_last();
        assert forall|x: int| 0 <= x < d.len() implies (#[trigger] d[x]).1 != v by {
            assert(d[x] == es[x]);
        }
        lemma_no_edge_in(d, v);
        assert(es[es.len() - 1].1 != v);
    }
}

/// The sum of capacities over a prefix of edges, where each capacity out of
/// `v` is at most `c`.
pub proof fn lemma_cap_out_bound(es: Seq<(usize, usize, i64, i64)>, v: int, c: int)
    requires
        c >= 0,
        forall|k: int| 0 <= k < es.len() ==> (#[trigger] es[k]).0 == v ==> es[k].2 <= c,
        forall|k: int| 0 <= k < es.len() ==> 0 <= (#[trigger] es[k]).2,
    ensures
        0 <= cap_out(es, v) <= c * es.len(),
    decreases es.len(),
{
    if es.len() > 0 {
        let d = es.drop_last();
        assert forall|k: int| 0 <= k < d.len() && (#[trigger] d[k]).0 == v implies d[k].2 <= c by {
            assert(d[k] == es[k]);
        }
        assert forall|k: int| 0 <= k < d.len() implies 0 <= (#[trigger] d[k]).2 by {
            assert(d[k] == es[k]);
        }
        lemma_cap_out_bound(d, v, c);
        assert(es[es.len() - 1].2 >= 0);
        assert(c * (es.len() - 1) + c == c * es.len()) by (nonlinear_arith);
    }
}

/// With no flow on any edge, flow is conserved everywhere.
pub proof fn lemma_zero_flows(es: Seq<(usize, usize, i64, i64)>, v: int)
    requires
        forall|k: int| 0 <= k < es.len() ==> (#[trigger] es[k]).3 == 0,
    ensures
        flow_in(es, v) == 0,
        flow_out(es, v) == 0,
    decreases es.len(),
{
    if es.len() > 0 {
        let d = es.drop_last();
        assert forall|k: int| 0 <= k < d.len() implies (#[trigger] d[k]).3 == 0 by {
            assert(d[k] == es[k]);
        }
        lemma_zero_flows(d, v);
        assert(es[es.len() - 1].3 == 0);
    }
}

/// The source reaches itself.
pub proof fn lemma_reach_self(es: Seq<(usize, usize, i64, i64)>, s: int)
    ensures
        residual_reach(es, s, s),
{
    let w = seq![s];
    assert(residual_walk(es, s, w));
}

/// A vertex reached from `s` passes its reach on along an edge with room left.
pub proof fn lemma_reach_step(es: Seq<(usize, usize, i64, i64)>, s: int, u: int, v: int, k: int)
    requires
        residual_reach(es, s, u),
        0 <= k < es.len(),
        residual_edge(es, k, u, v),
    ensures
        residual_reach(es, s, v),
{
    let w = choose|w: Seq<int>| #[trigger] residual_walk(es, s, w) && w.last() == u;
    let w2 = w.push(v);
    assert(residual_step(es, u, v));
    assert forall|i: int, j: int| 0 <= i && j == i + 1 && j < w2.len() implies #[trigger] residual_step(
        es,
        w2[i],
        w2[j],
    ) by {
        if j < w.len() {
            assert(w2[i] == w[i] && w2[j] == w[j]);
            assert(residual_step(es, w[i], w[j]));
        } else {
            assert(w2[i] == u && w2[j] == v);
        }
    }
    assert(residual_walk(es, s, w2));
    assert(w2.last() == v);
}

/// The net flow that edge `e` carries out of the vertex set `inside`.
pub open spec fn edge_net(e: (usize, usize, i64, i64), inside: spec_fn(int) -> bool) -> int {
    (if inside(e.0 as int) { e.3 as int } else { 0int }) - (if inside(e.1 as int) { e.3 as int } else { 0int })
}

/// The capacity that edge `e` adds to the cut around `inside`: its capacity
/// when it leaves the set.
pub open spec fn edge_cut(e: (usize, usize, i64, i64), inside: spec_fn(int) -> bool) -> int {
    if inside(e.0 as int) && !inside(e.1 as int) {
        e.2 as int
    } else {
        0int
    }
}

/// Net flow out of the vertex set `inside` over the edges `a..b`.
pub open spec fn cut_flow(es: Seq<(usize, usize, i64, i64)>, inside: spec_fn(int) -> bool, a: int, b: int) -> int
    decreases b - a,
{
    if b <= a {
        0
    } else {
        cut_flow(es, inside, a, b - 1) + edge_net(es[b - 1], inside)
    }
}

/// Capacity of the edges `a..b` that leave the vertex set `inside`.
pub open spec fn cut_capacity(es: Seq<(usize, usize, i64, i64)>, inside: spec_fn(int) -> bool, a: int, b: int) -> int
    decreases b - a,
{
    if b <= a {
        0
    } else {
        cut_capacity(es, inside, a, b - 1) + edge_cut(es[b - 1], inside)
    }
}

/// Sum of the net flows out of the vertices below `m` that lie in `inside`.
pub open spec fn set_net_out(es: Seq<(usize, usize, i64, i64)>, inside: spec_fn(int) -> bool, m: int) -> int
    decreases m,
{
    if m <= 0 {
        0
    } else {
        set_net_out(es, inside, m - 1) + if inside(m - 1) {
            flow_out(es, m - 1) - flow_in(es, m - 1)
        } else {
            0int
        }
    }
}

/// Every edge runs between vertices below `n`.
pub open spec fn edges_within(es: Seq<(usize, usize, i64, i64)>, n: int) -> bool {
    forall|k: int| 0 <= k < es.len() ==> (#[trigger] es[k]).0 < n && es[k].1 < n
}

/// Adding an edge changes the net flow out of a set by what the edge carries
/// out of it.
proof fn lemma_set_net_out_push(
    es: Seq<(usize, usize, i64, i64)>,
    e: (usize, usize, i64, i64),
    inside: spec_fn(int) -> bool,
    m: int,
)
    ensures
        set_net_out(es.push(e), inside, m) == set_net_out(es, inside, m) + (if inside(e.0 as int) && e.0 < m {
            e.3 as int
        } else {
            0int
        }) - (if inside(e.1 as int) && e.1 < m {
            e.3 as int
        } else {
            0int
        }),
    decreases m,
{
    if m > 0 {
        lemma_set_net_out_push(es, e, inside, m - 1);
        let es2 = es.push(e);
        assert(es2.drop_last() =~= es);
        assert(es2.last() == e);
        assert(flow_out(es2, m - 1) == flow_out(es, m - 1) + if e.0 == m - 1 { e.3 as int } else { 0int });
        assert(flow_in(es2, m - 1) == flow_in(es, m - 1) + if e.1 == m - 1 { e.3 as int } else { 0int });
    }
}

/// Summed edge by edge, the net flow out of a set is the sum of the net flows
/// out of its vertices.
proof fn lemma_cut_flow_vertices(es: Seq<(usize, usize, i64, i64)>, inside: spec_fn(int) -> bool, n: int, k: int)
    requires
        edges_within(es, n),
        0 <= k <= es.len(),
    ensures
        cut_flow(es, inside, 0, k) == set_net_out(es.take(k), inside, n),
    decreases k,
{
    if k == 0 {
        lemma_set_net_out_empty(es.take(0), inside, n);
    } else {
        lemma_cut_flow_vertices(es, inside, n, k - 1);
        assert(es.take(k) =~= es.take(k - 1).push(es[k - 1]));
        lemma_set_net_out_push(es.take(k - 1), es[k - 1], inside, n);
        assert(es[k - 1].0 < n && es[k - 1].1 < n);
    }
}

/// Without edges no flow leaves any set.
proof fn lemma_set_net_out_empty(es: Seq<(usize, usize, i64, i64)>, inside: spec_fn(int) -> bool, m: int)
    requires
        es.len() == 0,
    ensures
        set_net_out(es, inside, m) == 0,
    decreases m,
{
    if m > 0 {
        lemma_set_net_out_empty(es, inside, m - 1);
    }
}

/// Where flow is conserved, the net flow out of a set holding `s` but not `t`
/// is the net flow out of `s`.
proof fn lemma_set_net_out_source(
    es: Seq<(usize, usize, i64, i64)>,
    inside: spec_fn(int) -> bool,
    n: int,
    s: int,
    t: int,
    m: int,
)
    requires
        conserved(es, n, s, t),
        inside(s),
        !inside(t),
        0 <= s < n,
        0 <= m <= n,
    ensures
        set_net_out(es, inside, m) == if s < m { flow_out(es, s) - flow_in(es, s) } else { 0int },
    decreases m,
{
    if m > 0 {
        lemma_set_net_out_source(es, inside, n, s, t, m - 1);
        let v = m - 1;
        if v != s && v != t {
            assert(flow_in(es, v) == flow_out(es, v));
        }
    }
}

/// The net flow out of `s` is the net flow across every cut that separates
/// `s` from `t`.
pub proof fn lemma_flow_across_cut(es: Seq<(usize, usize, i64, i64)>, n: int, s: int, t: int, inside: spec_fn(int) -> bool)
    requires
        edges_within(es, n),
        conserved(es, n, s, t),
        0 <= s < n,
        inside(s),
        !inside(t),
    ensures
        cut_flow(es, inside, 0, es.len() as int) == flow_out(es, s) - flow_in(es, s),
{
    lemma_cut_flow_vertices(es, inside, n, es.len() as int);
    assert(es.take(es.len() as int) =~= es);
    lemma_set_net_out_source(es, inside, n, s, t, n);
}

/// With flows within capacities, the flow across a cut is at most its
/// capacity.
pub proof fn lemma_cut_flow_le_capacity(es: Seq<(usize, usize, i64, i64)>, inside: spec_fn(int) -> bool, a: int, b: int)
    requires
        flows_valid(es),
        0 <= a,
        b <= es.len(),
    ensures
        cut_flow(es, inside, a, b) <= cut_capacity(es, inside, a, b),
    decreases b - a,
{
    if b > a {
        lemma_cut_flow_le_capacity(es, inside, a, b - 1);
        let e = es[b - 1];
        assert(0 <= e.3 <= e.2);
    }
}

/// Where every edge out of `inside` is full and every edge into it is empty,
/// the flow across the cut is its capacity.
pub proof fn lemma_cut_flow_saturated(es: Seq<(usize, usize, i64, i64)>, inside: spec_fn(int) -> bool, a: int, b: int)
    requires
        flows_valid(es),
        0 <= a,
        b <= es.len(),
        forall|k: int|
            a <= k < b && inside((#[trigger] es[k]).0 as int) && !inside(es[k].1 as int) ==> es[k].3 == es[k].2,
        forall|k: int| a <= k < b && !inside((#[trigger] es[k]).0 as int) && inside(es[k].1 as int) ==> es[k].3 == 0,
    ensures
        cut_flow(es, inside, a, b) == cut_capacity(es, inside, a, b),
    decreases b - a,
{
    if b > a {
        lemma_cut_flow_saturated(es, inside, a, b - 1);
        let e = es[b - 1];
        assert(0 <= e.3 <= e.2);
    }
}

/// Cut capacities add up over consecutive ranges of edges.
pub proof fn lemma_cut_capacity_split(
    es: Seq<(usize, usize, i64, i64)>,
    inside: spec_fn(int) -> bool,
    a: int,
    b: int,
    c: int,
)
    requires
        a <= b <= c,
    ensures
        cut_capacity(es, inside, a, c) == cut_capacity(es, inside, a, b) + cut_capacity(es, inside, b, c),
    decreases c - b,
{
    if c > b {
        lemma_cut_capacity_split(es, inside, a, b, c - 1);
    }
}

/// Weak duality: the net flow out of `s` is at most the capacity of any cut
/// that separates `s` from `t`.
pub proof fn lemma_flow_le_cut(es: Seq<(usize, usize, i64, i64)>, n: int, s: int, t: int, inside: spec_fn(int) -> bool)
    requires
        flows_valid(es),
        edges_within(es, n),
        conserved(es, n, s, t),
        0 <= s < n,
        inside(s),
        !inside(t),
    ensures
        flow_out(es, s) - flow_in(es, s) <= cut_capacity(es, inside, 0, es.len() as int),
{
    lemma_flow_across_cut(es, n, s, t, inside);
    lemma_cut_flow_le_capacity(es, inside, 0, es.len() as int);
}

/// The vertices that `s` reaches in the residual graph.
pub open spec fn reach_set(es: Seq<(usize, usize, i64, i64)>, s: int) -> spec_fn(int) -> bool {
    |v: int| residual_reach(es, s, v)
}

/// Max-flow min-cut: once `t` cannot be reached in the residual graph, the
/// net flow out of `s` equals the capacity of the cut around the vertices that
/// `s` reaches.
pub proof fn lemma_flow_is_reach_cut(es: Seq<(usize, usize, i64, i64)>, n: int, s: int, t: int)
    requires
        flows_valid(es),
        edges_within(es, n),
        conserved(es, n, s, t),
        0 <= s < n,
        !residual_reach(es, s, t),
    ensures
        flow_out(es, s) - flow_in(es, s) == cut_capacity(es, reach_set(es, s), 0, es.len() as int),
{
    let inside = reach_set(es, s);
    lemma_reach_self(es, s);
    assert forall|k: int|
        0 <= k < es.len() && inside((#[trigger] es[k]).0 as int) && !inside(es[k].1 as int) implies es[k].3
        == es[k].2 by {
        if es[k].3 < es[k].2 {
            assert(residual_edge(es, k, es[k].0 as int, es[k].1 as int));
            lemma_reach_step(es, s, es[k].0 as int, es[k].1 as int, k);
        }
    }
    assert forall|k: int| 0 <= k < es.len() && !inside((#[trigger] es[k]).0 as int) && inside(es[k].1 as int) implies es[k].3
        == 0 by {
        if es[k].3 > 0 {
            assert(residual_edge(es, k, es[k].1 as int, es[k].0 as int));
            lemma_reach_step(es, s, es[k].1 as int, es[k].0 as int, k);
        }
    }
    lemma_flow_across_cut(es, n, s, t, inside);
    lemma_cut_flow_saturated(es, inside, 0, es.len() as int);
}

/// Flow out of a vertex is at most the capacity out of it.
pub proof fn lemma_flow_out_le_cap_out(es: Seq<(usize, usize, i64, i64)>, v: int)
    requires
        flows_valid(es),
    ensures
        flow_out(es, v) <= cap_out(es, v),
    decreases es.len(),
{
    if es.len() > 0 {
        let d = es.drop_last();
        assert(flows_valid(d)) by {
            assert forall|k: int| 0 <= k < d.len() implies 0 <= (#[trigger] d[k]).3 <= d[k].2 by {
                assert(d[k] == es[k]);
            }
        }
        lemma_flow_out_le_cap_out(d, v);
        assert(es[es.len() - 1].3 <= es[es.len() - 1].2);
    }
}

/// Edge lists that differ only in their flows have the same capacities.
pub proof fn lemma_same_edges_cap_out(a: Seq<(usize, usize, i64, i64)>, b: Seq<(usize, usize, i64, i64)>, v: int)
    requires
        same_edges(a, b),
    ensures
        cap_out(a, v) == cap_out(b, v),
    decreases a.len(),
{
    if a.len() > 0 {
        let da = a.drop_last();
        let db = b.drop_last();
        assert(same_edges(da, db)) by {
            assert forall|k: int| 0 <= k < da.len() implies (#[trigger] da[k]).0 == db[k].0 && da[k].1 == db[k].1
                && da[k].2 == db[k].2 by {
                assert(da[k] == a[k] && db[k] == b[k]);
            }
        }
        lemma_same_edges_cap_out(da, db, v);
        assert(a[a.len() - 1].0 == b[b.len() - 1].0 && a[a.len() - 1].2 == b[b.len() - 1].2);
    }
}

} // verus!


