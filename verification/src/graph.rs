//! The graph-derived cost model.
//!
//! Symbols are the nodes of a weighted directed graph, and the substitution
//! cost between two symbols is the single-source shortest-path distance
//! between them, saturated at the configured ceiling. The distance is stated
//! through `relax_rounds`, the Bellman-Ford characterization of shortest
//! path: after as many relaxation rounds as there are nodes, a node's entry
//! is the least cost of any path from the source, with the ceiling standing
//! both for "not reached" and for "at least the ceiling". Since every edge
//! weight is non-negative, a least-cost path never needs more edges than
//! there are nodes, so the entry is the shortest-path distance itself,
//! clamped to the ceiling.

use vstd::prelude::*;

use crate::dict::MalformedDictionary;
use crate::model::CostModel;
use crate::model::find_first;

verus! {

/// A directed weighted edge between two positions of the alphabet.
#[derive(Clone, Copy)]
pub struct GraphEdge {
    pub from: usize,
    pub to: usize,
    pub cost: usize,
}

/// A directed weighted arc between two symbols, as a dictionary source
/// names them.
#[derive(Clone, Copy)]
pub struct GraphArc {
    pub from: char,
    pub to: char,
    pub cost: usize,
}

/// The graph-derived cost model: the alphabet, the weighted directed edges
/// over its positions, and the configured ceiling.
pub struct GraphModel {
    pub nodes: Vec<char>,
    pub edges: Vec<GraphEdge>,
    pub max_distance_size: usize,
}

/// `d + w`, saturated at `max`.
pub open spec fn clamp_add(d: nat, w: nat, max: nat) -> nat {
    if d + w >= max {
        max
    } else {
        d + w
    }
}

/// The value at node `v` after relaxing every edge of `edges`, in order,
/// against the round-start distances `d`: the least of `d[v]` and, for each
/// edge into `v`, the saturated cost of reaching its tail and crossing it.
pub open spec fn relax_node(d: Seq<nat>, edges: Seq<GraphEdge>, v: int, max: nat) -> nat
    decreases edges.len(),
{
    if edges.len() == 0 {
        d[v]
    } else {
        let prev = relax_node(d, edges.drop_last(), v, max);
        let e = edges.last();
        if e.to as int == v && clamp_add(d[e.from as int], e.cost as nat, max) < prev {
            clamp_add(d[e.from as int], e.cost as nat, max)
        } else {
            prev
        }
    }
}

/// The distances after one relaxation round over the whole vector.
pub open spec fn relax_round(d: Seq<nat>, edges: Seq<GraphEdge>, max: nat) -> Seq<nat> {
    Seq::new(d.len(), |v: int| relax_node(d, edges, v, max))
}

/// The distances after `k` relaxation rounds: entry `v` is the least cost of
/// any path of at most `k` edges from the source to `v`, accumulated with
/// saturation at `max`.
pub open spec fn relax_rounds(d: Seq<nat>, edges: Seq<GraphEdge>, max: nat, k: nat) -> Seq<nat>
    decreases k,
{
    if k == 0 {
        d
    } else {
        relax_round(relax_rounds(d, edges, max, (k - 1) as nat), edges, max)
    }
}

/// The start vector: the source at zero, every other node at the ceiling.
pub open spec fn start_dist(n: nat, src: int, max: nat) -> Seq<nat> {
    Seq::new(n, |v: int| if v == src { 0 } else { max })
}

/// Relaxation never raises a node's value.
proof fn lemma_relax_node_le(d: Seq<nat>, edges: Seq<GraphEdge>, v: int, max: nat)
    requires
        0 <= v < d.len(),
    ensures
        relax_node(d, edges, v, max) <= d[v],
    decreases edges.len(),
{
    if edges.len() > 0 {
        lemma_relax_node_le(d, edges.drop_last(), v, max);
    }
}

/// Relaxation rounds keep the vector's length.
proof fn lemma_rounds_len(d: Seq<nat>, edges: Seq<GraphEdge>, max: nat, k: nat)
    ensures
        relax_rounds(d, edges, max, k).len() == d.len(),
    decreases k,
{
    if k > 0 {
        lemma_rounds_len(d, edges, max, (k - 1) as nat);
    }
}

/// However many rounds run, a node's value never rises above its start.
proof fn lemma_rounds_le(d: Seq<nat>, edges: Seq<GraphEdge>, max: nat, k: nat, v: int)
    requires
        0 <= v < d.len(),
    ensures
        relax_rounds(d, edges, max, k)[v] <= d[v],
    decreases k,
{
    if k > 0 {
        lemma_rounds_le(d, edges, max, (k - 1) as nat, v);
        lemma_rounds_len(d, edges, max, (k - 1) as nat);
        lemma_relax_node_le(relax_rounds(d, edges, max, (k - 1) as nat), edges, v, max);
    }
}

/// `p` lists positions into `edges` that chain from node `src` to node
/// `dst`: each names an edge, the first leaves `src`, the last enters `dst`,
/// and each edge starts where the one before it ended. The empty chain joins
/// every node to itself.
pub open spec fn is_path(edges: Seq<GraphEdge>, p: Seq<int>, src: int, dst: int) -> bool {
    if p.len() == 0 {
        src == dst
    } else {
        &&& forall|k: int| 0 <= k < p.len() ==> 0 <= #[trigger] p[k] < edges.len()
        &&& edges[p[0]].from as int == src
        &&& edges[p[p.len() - 1]].to as int == dst
        &&& forall|k: int|
            0 <= k < p.len() - 1 ==> (#[trigger] edges[p[k]].to) as int == edges[p[k + 1]].from as int
    }
}

/// The total weight of the chain of edges `p`.
pub open spec fn path_cost(edges: Seq<GraphEdge>, p: Seq<int>) -> nat
    decreases p.len(),
{
    if p.len() == 0 {
        0
    } else {
        path_cost(edges, p.drop_last()) + edges[p.last()].cost as nat
    }
}

/// The total weight of the chain `p`, saturated at `max`.
pub open spec fn sat_cost(edges: Seq<GraphEdge>, p: Seq<int>, max: nat) -> nat {
    if path_cost(edges, p) >= max {
        max
    } else {
        path_cost(edges, p)
    }
}

/// Relaxing every edge leaves node `to` of edge `t` at no more than the
/// saturated cost of reaching the edge's tail and crossing it.
proof fn lemma_relax_node_le_edge(d: Seq<nat>, edges: Seq<GraphEdge>, t: int, max: nat)
    requires
        0 <= t < edges.len(),
        0 <= edges[t].to < d.len(),
    ensures
        relax_node(d, edges, edges[t].to as int, max) <= clamp_add(
            d[edges[t].from as int],
            edges[t].cost as nat,
            max,
        ),
    decreases edges.len(),
{
    if t == edges.len() - 1 {
    } else {
        assert(edges.drop_last()[t] == edges[t]);
        lemma_relax_node_le_edge(d, edges.drop_last(), t, max);
    }
}

/// No chain of at most `k` edges beats the vector after `k` rounds: entry
/// `dst` is at or below the saturated cost of every such chain from `src`.
proof fn lemma_rounds_le_path(
    edges: Seq<GraphEdge>,
    max: nat,
    n: nat,
    src: int,
    dst: int,
    p: Seq<int>,
    k: nat,
)
    requires
        0 <= src < n,
        forall|x: int|
            0 <= x < edges.len() ==> (#[trigger] edges[x]).from < n && edges[x].to < n,
        is_path(edges, p, src, dst),
        p.len() <= k,
    ensures
        relax_rounds(start_dist(n, src, max), edges, max, k)[dst] <= sat_cost(edges, p, max),
    decreases p.len(), k,
{
    let start = start_dist(n, src, max);
    lemma_rounds_len(start, edges, max, k);
    if p.len() == 0 {
        lemma_rounds_le(start, edges, max, k, src);
    } else {
        let t = p.last();
        let e = edges[t];
        let q = p.drop_last();
        let mid = e.from as int;
        assert(q.len() > 0 ==> is_path(edges, q, src, mid)) by {
            if q.len() > 0 {
                assert(forall|x: int| 0 <= x < q.len() ==> q[x] == p[x]);
                assert(edges[q[q.len() - 1]].to as int == edges[p[p.len() - 1]].from as int);
            }
        }
        assert(q.len() == 0 ==> src == mid);
        lemma_rounds_le_path(edges, max, n, src, mid, q, (k - 1) as nat);
        let prev = relax_rounds(start, edges, max, (k - 1) as nat);
        lemma_rounds_len(start, edges, max, (k - 1) as nat);
        lemma_relax_node_le_edge(prev, edges, t, max);
        assert(relax_rounds(start, edges, max, k) == relax_round(prev, edges, max));
        assert(relax_rounds(start, edges, max, k)[dst] == relax_node(prev, edges, dst, max));
        assert(clamp_add(prev[mid], e.cost as nat, max) <= clamp_add(
            sat_cost(edges, q, max),
            e.cost as nat,
            max,
        ));
        assert(clamp_add(sat_cost(edges, q, max), e.cost as nat, max) == sat_cost(edges, p, max));
    }
}

/// A sequence of more than `n` values drawn from `0 .. n` repeats one.
proof fn lemma_repeated_value(vals: Seq<int>, n: int)
    requires
        0 <= n,
        vals.len() > n,
        forall|k: int| 0 <= k < vals.len() ==> 0 <= #[trigger] vals[k] < n,
    ensures
        exists|k1: int, k2: int| 0 <= k1 < k2 < vals.len() && vals[k1] == vals[k2],
{
    if vals.no_duplicates() {
        vals.unique_seq_to_set();
        vstd::set_lib::lemma_int_range(0, n);
        assert(vals.to_set().subset_of(vstd::set_lib::set_int_range(0, n))) by {
            assert forall|x: int| vals.to_set().contains(x) implies vstd::set_lib::set_int_range(
                0,
                n,
            ).contains(x) by {
                let i = choose|i: int| 0 <= i < vals.len() && vals[i] == x;
            }
        }
        vstd::set_lib::lemma_len_subset(vals.to_set(), vstd::set_lib::set_int_range(0, n));
        assert(false);
    } else {
        let (i, j) = choose|i: int, j: int|
            0 <= i < vals.len() && 0 <= j < vals.len() && i != j && vals[i] == vals[j];
        if i < j {
            assert(0 <= i < j < vals.len() && vals[i] == vals[j]);
        } else {
            assert(0 <= j < i < vals.len() && vals[j] == vals[i]);
        }
    }
}

/// The cost of chained edge lists adds up.
proof fn lemma_path_cost_concat(edges: Seq<GraphEdge>, a: Seq<int>, b: Seq<int>)
    ensures
        path_cost(edges, a + b) == path_cost(edges, a) + path_cost(edges, b),
    decreases b.len(),
{
    if b.len() == 0 {
        assert(a + b =~= a);
    } else {
        lemma_path_cost_concat(edges, a, b.drop_last());
        assert((a + b).drop_last() =~= a + b.drop_last());
        assert((a + b).last() == b.last());
    }
}

/// Cutting the stretch between two positions where the chain leaves the same
/// node keeps it a chain from `src` to `dst`.
#[verifier::rlimit(50)]
proof fn lemma_path_splice(
    edges: Seq<GraphEdge>,
    p: Seq<int>,
    src: int,
    dst: int,
    k1: int,
    k2: int,
)
    requires
        is_path(edges, p, src, dst),
        0 <= k1 < k2 < p.len(),
        edges[p[k1]].from == edges[p[k2]].from,
    ensures
        is_path(edges, p.take(k1) + p.skip(k2), src, dst),
{
    let q = p.take(k1) + p.skip(k2);
    assert(q.len() == k1 + p.len() - k2);
    assert(forall|x: int| 0 <= x < k1 ==> q[x] == p[x]);
    assert(forall|x: int| k1 <= x < q.len() ==> q[x] == p[x + k2 - k1]);
    assert(q[q.len() - 1] == p[p.len() - 1]);
    assert(edges[q[0]].from as int == src);
    assert forall|x: int| 0 <= x < q.len() - 1 implies (#[trigger] edges[q[x]].to) as int
        == edges[q[x + 1]].from as int by {
        if x < k1 - 1 {
            assert(edges[p[x]].to as int == edges[p[x + 1]].from as int);
        } else if x == k1 - 1 {
            assert(edges[p[k1 - 1]].to as int == edges[p[k1]].from as int);
        } else {
            assert(edges[p[x + k2 - k1]].to as int == edges[p[x + k2 - k1 + 1]].from as int);
        }
    }
}

/// No chain of edges at all, however long, beats the vector after one round
/// per node: with no negative weight, a cheapest chain never has to leave
/// the same node twice, so cutting the stretch between two such departures
/// only helps.
proof fn lemma_rounds_le_any_path(
    edges: Seq<GraphEdge>,
    max: nat,
    n: nat,
    src: int,
    dst: int,
    p: Seq<int>,
)
    requires
        0 <= src < n,
        forall|x: int|
            0 <= x < edges.len() ==> (#[trigger] edges[x]).from < n && edges[x].to < n,
        is_path(edges, p, src, dst),
    ensures
        relax_rounds(start_dist(n, src, max), edges, max, n)[dst] <= sat_cost(edges, p, max),
    decreases p.len(),
{
    if p.len() <= n {
        lemma_rounds_le_path(edges, max, n, src, dst, p, n);
    } else {
        let heads = Seq::new(p.len() as nat, |k: int| edges[p[k]].from as int);
        lemma_repeated_value(heads, n as int);
        let (k1, k2) = choose|k1: int, k2: int|
            0 <= k1 < k2 < heads.len() && heads[k1] == heads[k2];
        lemma_path_splice(edges, p, src, dst, k1, k2);
        let q = p.take(k1) + p.skip(k2);
        lemma_path_cost_concat(edges, p.take(k1), p.skip(k2));
        assert(p =~= (p.take(k1) + p.subrange(k1, k2)) + p.skip(k2));
        lemma_path_cost_concat(edges, p.take(k1) + p.subrange(k1, k2), p.skip(k2));
        lemma_path_cost_concat(edges, p.take(k1), p.subrange(k1, k2));
        assert(path_cost(edges, q) <= path_cost(edges, p));
        lemma_rounds_le_any_path(edges, max, n, src, dst, q);
    }
}

/// After any number of rounds, a node's entry is the ceiling or the exact
/// cost of some chain of edges from the source.
proof fn lemma_rounds_achieved(
    edges: Seq<GraphEdge>,
    max: nat,
    n: nat,
    src: int,
    dst: int,
    k: nat,
)
    requires
        0 <= src < n,
        0 <= dst < n,
        forall|x: int|
            0 <= x < edges.len() ==> (#[trigger] edges[x]).from < n && edges[x].to < n,
    ensures
        ({
            let val = relax_rounds(start_dist(n, src, max), edges, max, k)[dst];
            ||| val == max
            ||| (exists|p: Seq<int>|
                is_path(edges, p, src, dst) && path_cost(edges, p) == val && val < max)
        }),
    decreases k,
{
    let start = start_dist(n, src, max);
    lemma_rounds_len(start, edges, max, k);
    if k == 0 {
        if dst == src {
            let p = Seq::<int>::empty();
            assert(is_path(edges, p, src, dst) && path_cost(edges, p) == 0);
            if max > 0 {
                assert(exists|p: Seq<int>|
                    is_path(edges, p, src, dst) && path_cost(edges, p) == start[dst] && start[dst]
                        < max);
            }
        }
    } else {
        let prev = relax_rounds(start, edges, max, (k - 1) as nat);
        lemma_rounds_len(start, edges, max, (k - 1) as nat);
        let val = relax_rounds(start, edges, max, k)[dst];
        assert(val == relax_node(prev, edges, dst, max));
        lemma_relax_node_cases(prev, edges, dst, max);
        if val == prev[dst] {
            lemma_rounds_achieved(edges, max, n, src, dst, (k - 1) as nat);
        } else {
            let t = choose|t: int|
                0 <= t < edges.len() && edges[t].to as int == dst && relax_node(
                    prev,
                    edges,
                    dst,
                    max,
                ) == clamp_add(prev[edges[t].from as int], edges[t].cost as nat, max);
            let e = edges[t];
            let mid = e.from as int;
            if val < max {
                assert(prev[mid] + e.cost < max);
                assert(prev[mid] < max);
                lemma_rounds_achieved(edges, max, n, src, mid, (k - 1) as nat);
                let q = choose|q: Seq<int>|
                    is_path(edges, q, src, mid) && path_cost(edges, q) == prev[mid] && prev[mid]
                        < max;
                let p = q.push(t);
                assert(p.drop_last() =~= q);
                assert(is_path(edges, p, src, dst)) by {
                    assert(p[p.len() - 1] == t);
                    assert(forall|x: int| 0 <= x < q.len() ==> p[x] == q[x]);
                    if q.len() > 0 {
                        assert(edges[p[q.len() - 1]].to as int == edges[p[q.len() as int]].from as int);
                    }
                }
                assert(path_cost(edges, p) == path_cost(edges, q) + e.cost);
            }
        }
    }
}

/// Relaxation at a node either keeps the round-start value or takes some
/// edge into the node, saturated.
proof fn lemma_relax_node_cases(d: Seq<nat>, edges: Seq<GraphEdge>, v: int, max: nat)
    ensures
        relax_node(d, edges, v, max) == d[v] || (exists|t: int|
            0 <= t < edges.len() && edges[t].to as int == v && relax_node(d, edges, v, max)
                == clamp_add(d[edges[t].from as int], edges[t].cost as nat, max)),
    decreases edges.len(),
{
    if edges.len() > 0 {
        lemma_relax_node_cases(d, edges.drop_last(), v, max);
        let e = edges.last();
        let prev = relax_node(d, edges.drop_last(), v, max);
        if e.to as int == v && clamp_add(d[e.from as int], e.cost as nat, max) < prev {
            assert(edges[edges.len() - 1] == e);
        } else {
            if prev != d[v] {
                let t = choose|t: int|
                    0 <= t < edges.drop_last().len() && edges.drop_last()[t].to as int == v
                        && prev == clamp_add(
                        d[edges.drop_last()[t].from as int],
                        edges.drop_last()[t].cost as nat,
                        max,
                    );
                assert(edges.drop_last()[t] == edges[t]);
            }
        }
    }
}

impl GraphModel {
    /// Well-formedness: every edge joins two positions of the alphabet, and
    /// the ceiling fits the width of a single returned cost.
    pub open spec fn wf(&self) -> bool {
        &&& self.max_distance_size <= u8::MAX
        &&& forall|k: int|
            0 <= k < self.edges@.len() ==> {
                &&& (#[trigger] self.edges@[k]).from < self.nodes@.len()
                &&& self.edges@[k].to < self.nodes@.len()
            }
    }

    /// The shortest-path distance from position `src` to position `dst`,
    /// saturated at the ceiling: the ceiling when `dst` cannot be reached
    /// below it.
    pub open spec fn shortest(&self, src: int, dst: int) -> nat {
        relax_rounds(
            start_dist(self.nodes@.len(), src, self.max_distance_size as nat),
            self.edges@,
            self.max_distance_size as nat,
            self.nodes@.len(),
        )[dst]
    }

    /// The substitution cost from `from` to `to`: zero for a symbol against
    /// itself, the ceiling when either symbol is unknown, and otherwise the
    /// saturated shortest-path distance between their first occurrences in
    /// the alphabet.
    pub open spec fn graph_dist(&self, from: char, to: char) -> nat {
        if from == to {
            0
        } else {
            match (self.nodes@.index_of_first(from), self.nodes@.index_of_first(to)) {
                (Some(i), Some(j)) => self.shortest(i, j),
                _ => self.max_distance_size as nat,
            }
        }
    }

    /// `shortest` undercuts every chain: no chain of edges, however long,
    /// joins `src` to `dst` below it. Together with
    /// `lemma_shortest_achieved` this makes `shortest(src, dst)` exactly the
    /// shortest-path distance from `src` to `dst`, saturated at the ceiling.
    pub proof fn lemma_shortest_no_cheaper_path(&self, src: int, dst: int, p: Seq<int>)
        requires
            self.wf(),
            0 <= src < self.nodes@.len(),
            is_path(self.edges@, p, src, dst),
        ensures
            self.shortest(src, dst) <= sat_cost(self.edges@, p, self.max_distance_size as nat),
    {
        lemma_rounds_le_any_path(
            self.edges@,
            self.max_distance_size as nat,
            self.nodes@.len(),
            src,
            dst,
            p,
        );
    }

    /// `shortest` is honest: it is the ceiling, or the exact cost of some
    /// chain of edges from `src` to `dst` below the ceiling.
    pub proof fn lemma_shortest_achieved(&self, src: int, dst: int)
        requires
            self.wf(),
            0 <= src < self.nodes@.len(),
            0 <= dst < self.nodes@.len(),
        ensures
            self.shortest(src, dst) == self.max_distance_size || (exists|p: Seq<int>|
                is_path(self.edges@, p, src, dst) && path_cost(self.edges@, p) == self.shortest(
                    src,
                    dst,
                ) && self.shortest(src, dst) < self.max_distance_size),
    {
        lemma_rounds_achieved(
            self.edges@,
            self.max_distance_size as nat,
            self.nodes@.len(),
            src,
            dst,
            self.nodes@.len(),
        );
    }

    /// Builds a graph-derived cost model over the alphabet `nodes` from the
    /// directed arcs of a dictionary source. Fails with
    /// `MalformedDictionary`, returning no partial model, exactly when some
    /// arc names a symbol outside the alphabet.
    pub fn build(nodes: Vec<char>, arcs: &Vec<GraphArc>, max_distance_size: usize) -> (r: Result<
        GraphModel,
        MalformedDictionary,
    >)
        requires
            max_distance_size <= u8::MAX,
        ensures
            r is Ok <==> (forall|k: int|
                0 <= k < arcs@.len() ==> {
                    &&& nodes@.contains((#[trigger] arcs@[k]).from)
                    &&& nodes@.contains(arcs@[k].to)
                }),
            match r {
                Ok(g) => {
                    &&& g.wf()
                    &&& g.nodes@ == nodes@
                    &&& g.max_distance_size == max_distance_size
                    &&& g.edges@.len() == arcs@.len()
                    &&& forall|k: int|
                        0 <= k < arcs@.len() ==> {
                            &&& Some((#[trigger] g.edges@[k]).from as int) == nodes@.index_of_first(
                                arcs@[k].from,
                            )
                            &&& Some(g.edges@[k].to as int) == nodes@.index_of_first(arcs@[k].to)
                            &&& g.edges@[k].cost == arcs@[k].cost
                        }
                },
                Err(e) => e == (MalformedDictionary {  }),
            },
    {
        let mut edges: Vec<GraphEdge> = Vec::new();
        let mut i: usize = 0;
        while i < arcs.len()
            invariant
                0 <= i <= arcs@.len(),
                edges@.len() == i,
                forall|k: int|
                    0 <= k < i ==> {
                        &&& nodes@.contains((#[trigger] arcs@[k]).from)
                        &&& nodes@.contains(arcs@[k].to)
                    },
                forall|k: int|
                    0 <= k < i ==> {
                        &&& Some((#[trigger] edges@[k]).from as int) == nodes@.index_of_first(
                            arcs@[k].from,
                        )
                        &&& Some(edges@[k].to as int) == nodes@.index_of_first(arcs@[k].to)
                        &&& edges@[k].from < nodes@.len()
                        &&& edges@[k].to < nodes@.len()
                        &&& edges@[k].cost == arcs@[k].cost
                    },
            decreases arcs@.len() - i,
        {
            let arc = arcs[i];
            proof {
                nodes@.index_of_first_ensures(arc.from);
                nodes@.index_of_first_ensures(arc.to);
            }
            let from = match find_first(&nodes, arc.from) {
                Some(p) => p,
                None => {
                    return Err(MalformedDictionary {  });
                },
            };
            let to = match find_first(&nodes, arc.to) {
                Some(p) => p,
                None => {
                    return Err(MalformedDictionary {  });
                },
            };
            edges.push(GraphEdge { from, to, cost: arc.cost });
            i = i + 1;
        }
        Ok(GraphModel { nodes, edges, max_distance_size })
    }
}

impl CostModel for GraphModel {
    open spec fn alphabet(&self) -> Set<char> {
        self.nodes@.to_set()
    }

    open spec fn wf(&self) -> bool {
        self.wf()
    }

    open spec fn max_spec(&self) -> nat {
        self.max_distance_size as nat
    }

    open spec fn dist_spec(&self, from: char, to: char) -> nat {
        self.graph_dist(from, to)
    }

    proof fn lemma_dist_in_range(&self, from: char, to: char) {
        self.nodes@.index_of_first_ensures(from);
        self.nodes@.index_of_first_ensures(to);
        if from != to && self.nodes@.contains(from) && self.nodes@.contains(to) {
            let src = self.nodes@.index_of_first(from).unwrap();
            let dst = self.nodes@.index_of_first(to).unwrap();
            let max = self.max_distance_size as nat;
            let start = start_dist(self.nodes@.len(), src, max);
            lemma_rounds_le(start, self.edges@, max, self.nodes@.len(), dst);
        }
    }

    fn max_distance(&self) -> (m: usize) {
        self.max_distance_size
    }

    /// The matching rate of two symbols, in `0 ..= max_distance_size`, by
    /// relaxation over the whole edge set, once per node.
    fn distance(&self, from: char, to: char) -> (d: u8) {
        if from == to {
            return 0;
        }
        let src = match find_first(&self.nodes, from) {
            Some(p) => p,
            None => {
                return self.max_distance_size as u8;
            },
        };
        let dst = match find_first(&self.nodes, to) {
            Some(p) => p,
            None => {
                return self.max_distance_size as u8;
            },
        };
        proof {
            self.nodes@.index_of_first_ensures(from);
            self.nodes@.index_of_first_ensures(to);
        }
        let n = self.nodes.len();
        let max = self.max_distance_size;
        let ghost start = start_dist(n as nat, src as int, max as nat);

        let mut d: Vec<usize> = Vec::new();
        let mut v: usize = 0;
        while v < n
            invariant
                0 <= v <= n,
                src < n,
                d@.len() == v,
                max == self.max_distance_size,
                forall|k: int| 0 <= k < v ==> (#[trigger] d@[k]) as nat == start[k],
                forall|k: int| 0 <= k < v ==> (#[trigger] d@[k]) <= max,
                start == start_dist(n as nat, src as int, max as nat),
            decreases n - v,
        {
            if v == src {
                d.push(0);
            } else {
                d.push(max);
            }
            v = v + 1;
        }

        let mut round: usize = 0;
        while round < n
            invariant
                self.wf(),
                n == self.nodes@.len(),
                max == self.max_distance_size,
                src < n,
                dst < n,
                0 <= round <= n,
                d@.len() == n,
                start == start_dist(n as nat, src as int, max as nat),
                forall|k: int|
                    0 <= k < n ==> (#[trigger] d@[k]) as nat == relax_rounds(
                        start,
                        self.edges@,
                        max as nat,
                        round as nat,
                    )[k],
                forall|k: int| 0 <= k < n ==> (#[trigger] d@[k]) <= max,
            decreases n - round,
        {
            let ghost dcur = relax_rounds(start, self.edges@, max as nat, round as nat);
            proof {
                lemma_rounds_len(start, self.edges@, max as nat, round as nat);
            }
            let mut nd: Vec<usize> = Vec::new();
            let mut v: usize = 0;
            while v < n
                invariant
                    self.wf(),
                    n == self.nodes@.len(),
                    max == self.max_distance_size,
                    0 <= v <= n,
                    d@.len() == n,
                    dcur.len() == n,
                    forall|k: int| 0 <= k < n ==> (#[trigger] d@[k]) as nat == dcur[k],
                    forall|k: int| 0 <= k < n ==> (#[trigger] d@[k]) <= max,
                    nd@.len() == v,
                    forall|k: int|
                        0 <= k < v ==> (#[trigger] nd@[k]) as nat == relax_node(
                            dcur,
                            self.edges@,
                            k,
                            max as nat,
                        ),
                    forall|k: int| 0 <= k < v ==> (#[trigger] nd@[k]) <= max,
                decreases n - v,
            {
                let mut cur = d[v];
                let mut t: usize = 0;
                while t < self.edges.len()
                    invariant
                        self.wf(),
                        n == self.nodes@.len(),
                        max == self.max_distance_size,
                        0 <= v < n,
                        0 <= t <= self.edges@.len(),
                        d@.len() == n,
                        dcur.len() == n,
                        forall|k: int| 0 <= k < n ==> (#[trigger] d@[k]) as nat == dcur[k],
                        forall|k: int| 0 <= k < n ==> (#[trigger] d@[k]) <= max,
                        cur as nat == relax_node(dcur, self.edges@.take(t as int), v as int, max as nat),
                        cur <= max,
                    decreases self.edges@.len() - t,
                {
                    let e = self.edges[t];
                    proof {
                        assert(self.edges@.take(t + 1).drop_last() =~= self.edges@.take(t as int));
                        assert(self.edges@.take(t + 1).last() == self.edges@[t as int]);
                    }
                    if e.to == v {
                        let base = d[e.from];
                        let step = if e.cost >= max {
                            max
                        } else if base + e.cost >= max {
                            max
                        } else {
                            base + e.cost
                        };
                        proof {
                            assert(step as nat == clamp_add(dcur[e.from as int], e.cost as nat, max as nat));
                        }
                        if step < cur {
                            cur = step;
                        }
                    }
                    t = t + 1;
                }
                proof {
                    assert(self.edges@.take(self.edges@.len() as int) =~= self.edges@);
                }
                nd.push(cur);
                v = v + 1;
            }
            d = nd;
            round = round + 1;
        }
        let result = d[dst];
        result as u8
    }
}

} // verus!
