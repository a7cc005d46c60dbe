//! Combining the graphs of many search terms.

use vstd::prelude::*;

use crate::counts::{
    count_nodes, count_views, get_node_over_count, is_frequency_table, nodes_at_least, occ_count,
    table_nodes, NodeCount, NodeCountView,
};
use crate::graph::{both_ends_in, is_node_of, lemma_occurrences_are_nodes, occurrences, triples_within, triple_views, Graph, GraphView, Triple, TripleView};
use crate::seqs::{dedup, string_views};

verus! {

/// The views of a sequence of graphs.
pub open spec fn graph_views(gs: Seq<Graph>) -> Seq<GraphView> {
    gs.map_values(|g: Graph| g@)
}

/// The triples of every graph, graph after graph.
pub open spec fn all_triples(gs: Seq<GraphView>) -> Seq<TripleView>
    decreases gs.len(),
{
    if gs.len() == 0 {
        Seq::empty()
    } else {
        all_triples(gs.drop_last()) + gs.last().triples
    }
}

/// The node occurrences of every graph, graph after graph.
pub open spec fn all_occurrences(gs: Seq<GraphView>) -> Seq<Seq<char>>
    decreases gs.len(),
{
    if gs.len() == 0 {
        Seq::empty()
    } else {
        all_occurrences(gs.drop_last()) + occurrences(gs.last().triples)
    }
}

/// One graph named `merged_name` holding every triple of every graph once.
pub fn merge_graphs(graphs: &Vec<Graph>, merged_name: &str) -> (r: Graph)
    ensures
        r@.name == merged_name@,
        r@.triples == dedup(all_triples(graph_views(graphs@))),
        r.wf(),
{
    let ghost gs = graph_views(graphs@);
    let mut triples: Vec<Triple> = Vec::new();
    let mut i: usize = 0;
    while i < graphs.len()
        invariant
            i <= graphs.len(),
            gs == graph_views(graphs@),
            triple_views(triples@) == all_triples(gs.take(i as int)),
        decreases graphs.len() - i,
    {
        let g = &graphs[i];
        let ghost start = triple_views(triples@);
        let mut j: usize = 0;
        while j < g.triples.len()
            invariant
                j <= g.triples.len(),
                triple_views(triples@) == start + g@.triples.take(j as int),
            decreases g.triples.len() - j,
        {
            let ghost before = triples@;
            triples.push(g.triples[j].copy());
            assert(triple_views(triples@) =~= triple_views(before).push(g@.triples[j as int]));
            assert(g@.triples.take(j + 1) =~= g@.triples.take(j as int).push(g@.triples[j as int]));
            assert(triple_views(triples@) =~= start + g@.triples.take(j + 1));
            j += 1;
        }
        assert(g@.triples.take(g.triples.len() as int) =~= g@.triples);
        assert(gs.take(i + 1).drop_last() =~= gs.take(i as int));
        assert(gs.take(i + 1).last() == g@);
        i += 1;
    }
    assert(gs.take(graphs.len() as int) =~= gs);
    Graph::new(merged_name, triples)
}

/// The graphs merged into one graph named `all`.
pub fn concat_graphs(graphs: &Vec<Graph>) -> (r: Graph)
    ensures
        r@.name == "all"@,
        r@.triples == dedup(all_triples(graph_views(graphs@))),
        r.wf(),
{
    merge_graphs(graphs, "all")
}

/// The frequency table of the node occurrences of all graphs together: for
/// each node, the sum over the graphs of its count in each.
pub fn reduce_node_counts(graphs: &Vec<Graph>) -> (r: Vec<NodeCount>)
    ensures
        is_frequency_table(count_views(r@), all_occurrences(graph_views(graphs@))),
{
    let ghost gs = graph_views(graphs@);
    let mut nodes: Vec<String> = Vec::new();
    let mut i: usize = 0;
    while i < graphs.len()
        invariant
            i <= graphs.len(),
            gs == graph_views(graphs@),
            string_views(nodes@) == all_occurrences(gs.take(i as int)),
        decreases graphs.len() - i,
    {
        let ghost before = nodes@;
        let mut more = graphs[i].get_node();
        let ghost added = more@;
        nodes.append(&mut more);
        assert(string_views(nodes@) =~= string_views(before) + string_views(added));
        assert(gs.take(i + 1).drop_last() =~= gs.take(i as int));
        assert(gs.take(i + 1).last() == graphs@[i as int]@);
        i += 1;
    }
    assert(gs.take(graphs.len() as int) =~= gs);
    count_nodes(&nodes)
}


/// Whether both endpoints of `t` occur at least `min_count` times in `occ`.
pub open spec fn both_ends_reach(t: TripleView, occ: Seq<Seq<char>>, min_count: nat) -> bool {
    occ_count(occ, t.subject) >= min_count && occ_count(occ, t.object) >= min_count
}

/// The triples of `ts` whose subject and object each occur at least
/// `min_count` times in `occ`, in order.
pub open spec fn triples_with_degree(ts: Seq<TripleView>, occ: Seq<Seq<char>>, min_count: nat) -> Seq<
    TripleView,
>
    decreases ts.len(),
{
    if ts.len() == 0 {
        ts
    } else {
        let rest = triples_with_degree(ts.drop_last(), occ, min_count);
        if both_ends_reach(ts.last(), occ, min_count) {
            rest.push(ts.last())
        } else {
            rest
        }
    }
}

proof fn lemma_nodes_at_least_contains(t: Seq<NodeCountView>, min_count: nat, n: Seq<char>)
    ensures
        nodes_at_least(t, min_count).contains(n) <==> exists|i: int|
            0 <= i < t.len() && t[i].node == n && t[i].count >= min_count,
    decreases t.len(),
{
    if t.len() > 0 {
        let p = t.drop_last();
        let rest = nodes_at_least(p, min_count);
        lemma_nodes_at_least_contains(p, min_count, n);
        if t.last().count >= min_count {
            let e = rest.push(t.last().node);
            if e.contains(n) {
                let j = choose|j: int| 0 <= j < e.len() && e[j] == n;
                if j < rest.len() {
                    assert(rest[j] == n);
                    let i = choose|i: int| 0 <= i < p.len() && p[i].node == n && p[i].count >= min_count;
                    assert(t[i] == p[i]);
                } else {
                    assert(t[t.len() - 1].node == n);
                }
            }
            if exists|i: int| 0 <= i < t.len() && t[i].node == n && t[i].count >= min_count {
                let i = choose|i: int| 0 <= i < t.len() && t[i].node == n && t[i].count >= min_count;
                if i < t.len() - 1 {
                    assert(p[i] == t[i]);
                    let j = choose|j: int| 0 <= j < rest.len() && rest[j] == n;
                    assert(e[j] == n);
                } else {
                    assert(e[rest.len() as int] == n);
                }
            }
        } else {
            if rest.contains(n) {
                let i = choose|i: int| 0 <= i < p.len() && p[i].node == n && p[i].count >= min_count;
                assert(t[i] == p[i]);
            }
            if exists|i: int| 0 <= i < t.len() && t[i].node == n && t[i].count >= min_count {
                let i = choose|i: int| 0 <= i < t.len() && t[i].node == n && t[i].count >= min_count;
                assert(p[i] == t[i]);
            }
        }
    }
}

proof fn lemma_within_by_degree(
    ts: Seq<TripleView>,
    nodes: Seq<Seq<char>>,
    occ: Seq<Seq<char>>,
    min_count: nat,
)
    requires
        forall|i: int|
            0 <= i < ts.len() ==> (both_ends_in(#[trigger] ts[i], nodes) <==> both_ends_reach(
                ts[i],
                occ,
                min_count,
            )),
    ensures
        triples_within(ts, nodes) == triples_with_degree(ts, occ, min_count),
    decreases ts.len(),
{
    if ts.len() > 0 {
        let p = ts.drop_last();
        assert forall|i: int| 0 <= i < p.len() implies (both_ends_in(#[trigger] p[i], nodes)
            <==> both_ends_reach(p[i], occ, min_count)) by {
            assert(p[i] == ts[i]);
        }
        lemma_within_by_degree(p, nodes, occ, min_count);
        assert(ts.last() == ts[ts.len() - 1]);
    }
}

/// All graphs merged into one graph named `all`, then cut down to the
/// triples whose two endpoints each stand at no fewer than
/// `node_count_thres` edge ends of the merged graph.
pub fn multi_edge_graph(graphs: &Vec<Graph>, node_count_thres: usize) -> (r: Graph)
    ensures
        r@.name == "all"@,
        r@.triples == triples_with_degree(
            dedup(all_triples(graph_views(graphs@))),
            occurrences(dedup(all_triples(graph_views(graphs@)))),
            node_count_thres as nat,
        ),
        r.wf(),
{
    let kg = concat_graphs(graphs);
    let counts = kg.group_by_node_count();
    let targets = get_node_over_count(&counts, node_count_thres);
    let r = kg.filter_by_target_nodes(&targets);
    proof {
        let ts = kg@.triples;
        let occ = occurrences(ts);
        let t = count_views(counts@);
        let nodes = string_views(targets@);
        lemma_occurrences_are_nodes(ts);
        assert forall|i: int| 0 <= i < ts.len() implies (both_ends_in(#[trigger] ts[i], nodes)
            <==> both_ends_reach(ts[i], occ, node_count_thres as nat)) by {
            let min = node_count_thres as nat;
            assert(is_node_of(ts, ts[i].subject));
            assert(is_node_of(ts, ts[i].object));
            assert forall|n: Seq<char>| occ.contains(n) implies (nodes.contains(n) <==> occ_count(
                occ,
                n,
            ) >= min) by {
                lemma_nodes_at_least_contains(t, min, n);
                assert(table_nodes(t).contains(n));
                let j = choose|j: int| 0 <= j < t.len() && table_nodes(t)[j] == n;
                assert(t[j].node == n);
                assert(t[j].count == occ_count(occ, t[j].node));
                if nodes.contains(n) {
                    let k = choose|k: int| 0 <= k < t.len() && t[k].node == n && t[k].count >= min;
                    assert(t[k].count == occ_count(occ, t[k].node));
                }
            }
        }
        lemma_within_by_degree(ts, nodes, occ, node_count_thres as nat);
    }
    r
}

} // verus!
