//! Laws that relate the graph operations to one another.

use vstd::prelude::*;

use crate::counts::{is_frequency_table, occ_count, table_nodes, NodeCountView};
use crate::graph::{occurrences, triple_views, GraphView, Triple, TripleView};
use crate::merge::{all_occurrences, all_triples};
use crate::n3::n3_document;
use crate::seqs::{dedup, lemma_dedup_contains, lemma_dedup_no_duplicates};

verus! {

proof fn lemma_dedup_absorbs(a: Seq<TripleView>, b: Seq<TripleView>)
    requires
        forall|i: int| 0 <= i < b.len() ==> a.contains(#[trigger] b[i]),
    ensures
        dedup(a + b) == dedup(a),
    decreases b.len(),
{
    if b.len() == 0 {
        assert(a + b =~= a);
    } else {
        let p = b.drop_last();
        assert forall|i: int| 0 <= i < p.len() implies a.contains(#[trigger] p[i]) by {
            assert(p[i] == b[i]);
        }
        lemma_dedup_absorbs(a, p);
        assert((a + b).drop_last() =~= a + p);
        assert((a + b).last() == b[b.len() - 1]);
        lemma_dedup_contains(a);
    }
}

/// Building a graph from a list of triples and from that list written twice
/// gives the same triples.
pub proof fn lemma_dedup_idempotent(ts: Seq<Triple>)
    ensures
        dedup(triple_views(ts + ts)) == dedup(triple_views(ts)),
{
    let v = triple_views(ts);
    assert(triple_views(ts + ts) =~= v + v);
    assert forall|i: int| 0 <= i < v.len() implies v.contains(#[trigger] v[i]) by {}
    lemma_dedup_absorbs(v, v);
}

/// A graph of the single triple `t` counts its subject and its object once
/// each, or a self-loop's node twice, and no other node.
pub proof fn lemma_single_triple_frequencies(t: TripleView)
    ensures
        occ_count(occurrences(seq![t]), t.subject) == if t.subject == t.object {
            2nat
        } else {
            1nat
        },
        occ_count(occurrences(seq![t]), t.object) == if t.subject == t.object {
            2nat
        } else {
            1nat
        },
        forall|n: Seq<char>|
            n != t.subject && n != t.object ==> occ_count(occurrences(seq![t]), n) == 0,
{
    let occ = occurrences(seq![t]);
    assert(occ =~= seq![t.subject, t.object]);
    assert(occ.drop_last() =~= seq![t.subject]);
    assert(occ.drop_last().drop_last() =~= Seq::<Seq<char>>::empty());
    assert forall|n: Seq<char>| occ_count(occ, n) == (if t.subject == n { 1nat } else { 0nat }) + (
    if t.object == n {
        1nat
    } else {
        0nat
    }) by {
        reveal_with_fuel(occ_count, 3);
        assert(occ_count(occ.drop_last().drop_last(), n) == 0);
        assert(occ.drop_last().last() == t.subject);
        assert(occ.last() == t.object);
    }
}

proof fn lemma_all_triples_contains(gs: Seq<GraphView>, t: TripleView)
    ensures
        all_triples(gs).contains(t) <==> exists|i: int|
            0 <= i < gs.len() && #[trigger] gs[i].triples.contains(t),
    decreases gs.len(),
{
    if gs.len() > 0 {
        let p = gs.drop_last();
        let a = all_triples(p);
        let l = gs.last().triples;
        lemma_all_triples_contains(p, t);
        if (a + l).contains(t) {
            let j = choose|j: int| 0 <= j < (a + l).len() && (a + l)[j] == t;
            if j < a.len() {
                assert(a[j] == t);
                let i = choose|i: int| 0 <= i < p.len() && #[trigger] p[i].triples.contains(t);
                assert(gs[i] == p[i]);
            } else {
                assert(l[j - a.len()] == t);
                assert(gs[gs.len() - 1].triples.contains(t));
            }
        }
        if exists|i: int| 0 <= i < gs.len() && #[trigger] gs[i].triples.contains(t) {
            let i = choose|i: int| 0 <= i < gs.len() && #[trigger] gs[i].triples.contains(t);
            if i < gs.len() - 1 {
                assert(p[i] == gs[i]);
                let j = choose|j: int| 0 <= j < a.len() && a[j] == t;
                assert((a + l)[j] == t);
            } else {
                let j = choose|j: int| 0 <= j < l.len() && l[j] == t;
                assert((a + l)[a.len() + j] == t);
            }
        }
    }
}

/// Merging keeps every triple of every graph and only those, each once:
/// a triple that several graphs share appears a single time.
pub proof fn lemma_merge_content(gs: Seq<GraphView>)
    ensures
        dedup(all_triples(gs)).no_duplicates(),
        forall|t: TripleView|
            dedup(all_triples(gs)).contains(t) <==> exists|i: int|
                0 <= i < gs.len() && #[trigger] gs[i].triples.contains(t),
{
    lemma_dedup_no_duplicates(all_triples(gs));
    lemma_dedup_contains(all_triples(gs));
    assert forall|t: TripleView|
        dedup(all_triples(gs)).contains(t) <==> exists|i: int|
            0 <= i < gs.len() && #[trigger] gs[i].triples.contains(t) by {
        lemma_all_triples_contains(gs, t);
    }
}

proof fn lemma_occ_count_concat(a: Seq<Seq<char>>, b: Seq<Seq<char>>, n: Seq<char>)
    ensures
        occ_count(a + b, n) == occ_count(a, n) + occ_count(b, n),
    decreases b.len(),
{
    if b.len() == 0 {
        assert(a + b =~= a);
    } else {
        lemma_occ_count_concat(a, b.drop_last(), n);
        assert((a + b).drop_last() =~= a + b.drop_last());
        assert((a + b).last() == b.last());
    }
}

/// The sum over the graphs of the count of `n` in each.
pub open spec fn per_graph_total(gs: Seq<GraphView>, n: Seq<char>) -> nat
    decreases gs.len(),
{
    if gs.len() == 0 {
        0
    } else {
        per_graph_total(gs.drop_last(), n) + occ_count(occurrences(gs.last().triples), n)
    }
}

/// Counting the occurrences of all graphs together adds up the counts of
/// the graphs one by one.
pub proof fn lemma_reduce_adds(gs: Seq<GraphView>, n: Seq<char>)
    ensures
        occ_count(all_occurrences(gs), n) == per_graph_total(gs, n),
    decreases gs.len(),
{
    if gs.len() > 0 {
        lemma_reduce_adds(gs.drop_last(), n);
        lemma_occ_count_concat(all_occurrences(gs.drop_last()), occurrences(gs.last().triples), n);
    }
}

/// A graph without triples has no node, an empty frequency table and an
/// empty N3 text.
pub proof fn lemma_empty_graph(t: Seq<NodeCountView>)
    ensures
        dedup(Seq::<TripleView>::empty()) == Seq::<TripleView>::empty(),
        dedup(occurrences(Seq::<TripleView>::empty())).len() == 0,
        is_frequency_table(t, occurrences(Seq::<TripleView>::empty())) ==> t.len() == 0,
        n3_document(Seq::<TripleView>::empty()).len() == 0,
{
    let occ = occurrences(Seq::<TripleView>::empty());
    assert(occ =~= Seq::<Seq<char>>::empty());
    if is_frequency_table(t, occ) && t.len() > 0 {
        assert(table_nodes(t)[0] == t[0].node);
        assert(table_nodes(t).contains(t[0].node));
        assert(occ.contains(t[0].node));
        assert(false);
    }
}

} // verus!
