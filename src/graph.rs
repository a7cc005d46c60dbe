//! Triples and the graphs that hold them.

use vstd::prelude::*;

use crate::counts::{count_nodes, count_views, is_frequency_table, NodeCount};
use crate::seqs::{dedup, lemma_dedup_contains, lemma_dedup_no_duplicates, string_views};

verus! {

/// A node identifier: a URI or a bare label.
pub type Node = String;

/// An edge label.
pub type Link = String;

/// What a triple holds, as character sequences.
pub struct TripleView {
    pub subject: Seq<char>,
    pub predicate: Seq<char>,
    pub object: Seq<char>,
}

/// A labelled directed edge: `subject --predicate--> object`.
#[derive(Debug, Clone, PartialEq, Eq, Hash)]
pub struct Triple {
    pub subject: String,
    pub predicate: String,
    pub object: String,
}

impl View for Triple {
    type V = TripleView;

    open spec fn view(&self) -> TripleView {
        TripleView { subject: self.subject@, predicate: self.predicate@, object: self.object@ }
    }
}

/// The views of a sequence of triples.
pub open spec fn triple_views(ts: Seq<Triple>) -> Seq<TripleView> {
    ts.map_values(|t: Triple| t@)
}

impl Triple {
    /// A triple made of copies of the three strings.
    pub fn new(subject: &str, predicate: &str, object: &str) -> (r: Triple)
        ensures
            r@ == (TripleView { subject: subject@, predicate: predicate@, object: object@ }),
    {
        Triple {
            subject: subject.to_owned(),
            predicate: predicate.to_owned(),
            object: object.to_owned(),
        }
    }

    /// A field-by-field copy.
    pub fn copy(&self) -> (r: Triple)
        ensures
            r@ == self@,
    {
        Triple {
            subject: self.subject.clone(),
            predicate: self.predicate.clone(),
            object: self.object.clone(),
        }
    }

    /// Structural equality of two triples.
    pub fn same_as(&self, other: &Triple) -> (r: bool)
        ensures
            r == (self@ == other@),
    {
        self.subject == other.subject && self.predicate == other.predicate && self.object
            == other.object
    }
}

/// Whether `t` occurs in `ts`.
pub fn contains_triple(ts: &Vec<Triple>, t: &Triple) -> (r: bool)
    ensures
        r == triple_views(ts@).contains(t@),
{
    let mut i: usize = 0;
    while i < ts.len()
        invariant
            i <= ts.len(),
            forall|j: int| 0 <= j < i ==> ts@[j]@ != t@,
        decreases ts.len() - i,
    {
        if ts[i].same_as(t) {
            assert(triple_views(ts@)[i as int] == t@);
            return true;
        }
        i += 1;
    }
    false
}

/// The first occurrence of each triple of `ts`, in order.
pub fn dedup_triples(ts: &Vec<Triple>) -> (r: Vec<Triple>)
    ensures
        triple_views(r@) == dedup(triple_views(ts@)),
{
    let ghost all = triple_views(ts@);
    let mut out: Vec<Triple> = Vec::new();
    let mut i: usize = 0;
    while i < ts.len()
        invariant
            i <= ts.len(),
            all == triple_views(ts@),
            triple_views(out@) == dedup(all.take(i as int)),
        decreases ts.len() - i,
    {
        assert(all.take(i + 1).drop_last() =~= all.take(i as int));
        assert(all.take(i + 1).last() == ts@[i as int]@);
        if !contains_triple(&out, &ts[i]) {
            let ghost before = out@;
            let t = ts[i].copy();
            out.push(t);
            assert(triple_views(out@) =~= triple_views(before).push(ts@[i as int]@));
        }
        i += 1;
    }
    assert(all.take(ts.len() as int) =~= all);
    out
}


/// Every subject, then every object, one entry per triple.
pub open spec fn occurrences(ts: Seq<TripleView>) -> Seq<Seq<char>> {
    ts.map_values(|t: TripleView| t.subject) + ts.map_values(|t: TripleView| t.object)
}

/// Whether `n` is the subject or the object of some triple of `ts`.
pub open spec fn is_node_of(ts: Seq<TripleView>, n: Seq<char>) -> bool {
    exists|i: int| 0 <= i < ts.len() && (ts[i].subject == n || ts[i].object == n)
}

/// Whether both endpoints of `t` are among `nodes`.
pub open spec fn both_ends_in(t: TripleView, nodes: Seq<Seq<char>>) -> bool {
    nodes.contains(t.subject) && nodes.contains(t.object)
}

/// The triples of `ts` whose subject and object both lie in `nodes`, in order.
pub open spec fn triples_within(ts: Seq<TripleView>, nodes: Seq<Seq<char>>) -> Seq<TripleView>
    decreases ts.len(),
{
    if ts.len() == 0 {
        ts
    } else {
        let w = triples_within(ts.drop_last(), nodes);
        if both_ends_in(ts.last(), nodes) {
            w.push(ts.last())
        } else {
            w
        }
    }
}

/// The occurrences of `ts` are exactly the subjects and objects of its triples.
pub proof fn lemma_occurrences_are_nodes(ts: Seq<TripleView>)
    ensures
        forall|n: Seq<char>| occurrences(ts).contains(n) <==> is_node_of(ts, n),
{
    let subj = ts.map_values(|t: TripleView| t.subject);
    let obj = ts.map_values(|t: TripleView| t.object);
    assert forall|n: Seq<char>| occurrences(ts).contains(n) <==> is_node_of(ts, n) by {
        let occ = occurrences(ts);
        if occ.contains(n) {
            let j = choose|j: int| 0 <= j < occ.len() && occ[j] == n;
            if j < ts.len() {
                assert(subj[j] == ts[j].subject);
            } else {
                assert(obj[j - ts.len()] == ts[j - ts.len()].object);
            }
        }
        if is_node_of(ts, n) {
            let i = choose|i: int| 0 <= i < ts.len() && (ts[i].subject == n || ts[i].object == n);
            if ts[i].subject == n {
                assert(occ[i] == n);
            } else {
                assert(occ[ts.len() + i] == n);
            }
        }
    }
}

/// What a graph holds: its name and its triples.
pub struct GraphView {
    pub name: Seq<char>,
    pub triples: Seq<TripleView>,
}

/// A named set of triples; `wf` says that no triple occurs twice.
#[derive(Debug)]
pub struct Graph {
    pub graph_name: String,
    pub triples: Vec<Triple>,
}

impl View for Graph {
    type V = GraphView;

    open spec fn view(&self) -> GraphView {
        GraphView { name: self.graph_name@, triples: triple_views(self.triples@) }
    }
}

impl Graph {
    /// No triple occurs twice.
    pub open spec fn wf(&self) -> bool {
        self@.triples.no_duplicates()
    }

    /// A graph named `graph_name` holding each triple of `triples` once,
    /// in order of first occurrence.
    pub fn new(graph_name: &str, triples: Vec<Triple>) -> (r: Graph)
        ensures
            r@.name == graph_name@,
            r@.triples == dedup(triple_views(triples@)),
            r.wf(),
    {
        let kept = dedup_triples(&triples);
        proof {
            lemma_dedup_no_duplicates(triple_views(triples@));
        }
        Graph { graph_name: graph_name.to_owned(), triples: kept }
    }

    /// The subject of every triple, then the object of every triple: a node
    /// occurs here once for each edge end that it stands at.
    pub fn get_node(&self) -> (r: Vec<String>)
        ensures
            string_views(r@) == occurrences(self@.triples),
    {
        let ghost ts = self@.triples;
        let mut out: Vec<String> = Vec::new();
        let mut i: usize = 0;
        while i < self.triples.len()
            invariant
                i <= self.triples.len(),
                ts == self@.triples,
                string_views(out@) =~= ts.map_values(|t: TripleView| t.subject).take(i as int),
            decreases self.triples.len() - i,
        {
            let ghost before = out@;
            out.push(self.triples[i].subject.clone());
            assert(string_views(out@) =~= string_views(before).push(ts[i as int].subject));
            i += 1;
        }
        assert(ts.map_values(|t: TripleView| t.subject).take(i as int) =~= ts.map_values(
            |t: TripleView| t.subject,
        ));
        let mut k: usize = 0;
        while k < self.triples.len()
            invariant
                k <= self.triples.len(),
                ts == self@.triples,
                string_views(out@) =~= ts.map_values(|t: TripleView| t.subject) + ts.map_values(
                    |t: TripleView| t.object,
                ).take(k as int),
            decreases self.triples.len() - k,
        {
            let ghost before = out@;
            out.push(self.triples[k].object.clone());
            assert(string_views(out@) =~= string_views(before).push(ts[k as int].object));
            k += 1;
        }
        assert(ts.map_values(|t: TripleView| t.object).take(k as int) =~= ts.map_values(
            |t: TripleView| t.object,
        ));
        out
    }

    /// Every node that is the subject or the object of some triple, once,
    /// in order of first occurrence in `get_node`.
    pub fn get_unique_node(&self) -> (r: Vec<String>)
        ensures
            string_views(r@) == dedup(occurrences(self@.triples)),
            string_views(r@).no_duplicates(),
            forall|n: Seq<char>| string_views(r@).contains(n) <==> is_node_of(self@.triples, n),
    {
        let all = self.get_node();
        let r = dedup_strings(&all);
        proof {
            lemma_dedup_no_duplicates(occurrences(self@.triples));
            lemma_dedup_contains(occurrences(self@.triples));
            lemma_occurrences_are_nodes(self@.triples);
        }
        r
    }

    /// How many edge ends each node stands at, by count descending: the
    /// frequency table of `get_node`.
    pub fn group_by_node_count(&self) -> (r: Vec<NodeCount>)
        ensures
            is_frequency_table(count_views(r@), occurrences(self@.triples)),
    {
        let nodes = self.get_node();
        count_nodes(&nodes)
    }

    /// The triples whose subject and object are both in `target_nodes`,
    /// under the same name.
    pub fn filter_by_target_nodes(&self, target_nodes: &Vec<String>) -> (r: Graph)
        ensures
            r@.name == self@.name,
            r@.triples == triples_within(self@.triples, string_views(target_nodes@)),
            self.wf() ==> r.wf(),
    {
        let ghost ts = self@.triples;
        let ghost nodes = string_views(target_nodes@);
        let mut out: Vec<Triple> = Vec::new();
        let mut i: usize = 0;
        while i < self.triples.len()
            invariant
                i <= self.triples.len(),
                ts == self@.triples,
                nodes == string_views(target_nodes@),
                triple_views(out@) == triples_within(ts.take(i as int), nodes),
            decreases self.triples.len() - i,
        {
            assert(ts.take(i + 1).drop_last() =~= ts.take(i as int));
            assert(ts.take(i + 1).last() == self.triples@[i as int]@);
            let t = &self.triples[i];
            if contains_string(target_nodes, &t.subject) && contains_string(target_nodes, &t.object) {
                let ghost before = out@;
                out.push(t.copy());
                assert(triple_views(out@) =~= triple_views(before).push(t@));
            }
            i += 1;
        }
        assert(ts.take(ts.len() as int) =~= ts);
        proof {
            lemma_within_is_subsequence(ts, nodes);
        }
        Graph { graph_name: self.graph_name.clone(), triples: out }
    }
}

/// `triples_within` keeps triples of the input only, each with both ends in
/// `nodes`, and keeps a sequence free of duplicates free of them.
pub proof fn lemma_within_is_subsequence(ts: Seq<TripleView>, nodes: Seq<Seq<char>>)
    ensures
        forall|t: TripleView| triples_within(ts, nodes).contains(t) <==> (ts.contains(t) && both_ends_in(t, nodes)),
        ts.no_duplicates() ==> triples_within(ts, nodes).no_duplicates(),
    decreases ts.len(),
{
    if ts.len() > 0 {
        let prev = ts.drop_last();
        lemma_within_is_subsequence(prev, nodes);
        let w = triples_within(prev, nodes);
        assert forall|t: TripleView| ts.contains(t) <==> (prev.contains(t) || t == ts.last()) by {
            if ts.contains(t) {
                let j = choose|j: int| 0 <= j < ts.len() && ts[j] == t;
                if j < ts.len() - 1 {
                    assert(prev[j] == t);
                }
            }
            if prev.contains(t) {
                let j = choose|j: int| 0 <= j < prev.len() && prev[j] == t;
                assert(ts[j] == t);
            }
            if t == ts.last() {
                assert(ts[ts.len() - 1] == t);
            }
        }
        if both_ends_in(ts.last(), nodes) {
            let e = w.push(ts.last());
            assert forall|t: TripleView| e.contains(t) <==> (w.contains(t) || t == ts.last()) by {
                if e.contains(t) {
                    let j = choose|j: int| 0 <= j < e.len() && e[j] == t;
                    if j < w.len() {
                        assert(w[j] == t);
                    }
                }
                if w.contains(t) {
                    let j = choose|j: int| 0 <= j < w.len() && w[j] == t;
                    assert(e[j] == t);
                }
                if t == ts.last() {
                    assert(e[w.len() as int] == t);
                }
            }
            if ts.no_duplicates() {
                assert(!prev.contains(ts.last())) by {
                    if prev.contains(ts.last()) {
                        let j = choose|j: int| 0 <= j < prev.len() && prev[j] == ts.last();
                        assert(ts[j] == ts[ts.len() - 1]);
                    }
                }
                assert(prev.no_duplicates()) by {
                    assert forall|i: int, j: int| 0 <= i < prev.len() && 0 <= j < prev.len() && i != j implies prev[i] != prev[j] by {
                        assert(prev[i] == ts[i] && prev[j] == ts[j]);
                    }
                }
                assert forall|i: int, j: int| 0 <= i < e.len() && 0 <= j < e.len() && i != j implies e[i] != e[j] by {
                    if i == w.len() {
                        assert(w.contains(e[j]));
                    } else if j == w.len() {
                        assert(w.contains(e[i]));
                    }
                }
            }
        } else if ts.no_duplicates() {
            assert(prev.no_duplicates()) by {
                assert forall|i: int, j: int| 0 <= i < prev.len() && 0 <= j < prev.len() && i != j implies prev[i] != prev[j] by {
                    assert(prev[i] == ts[i] && prev[j] == ts[j]);
                }
            }
        }
    }
}

/// Whether `n` occurs in `v`.
pub fn contains_string(v: &Vec<String>, n: &String) -> (r: bool)
    ensures
        r == string_views(v@).contains(n@),
{
    let mut i: usize = 0;
    while i < v.len()
        invariant
            i <= v.len(),
            forall|j: int| 0 <= j < i ==> v@[j]@ != n@,
        decreases v.len() - i,
    {
        if v[i] == *n {
            assert(string_views(v@)[i as int] == n@);
            return true;
        }
        i += 1;
    }
    false
}

/// The first occurrence of each string of `v`, in order.
pub fn dedup_strings(v: &Vec<String>) -> (r: Vec<String>)
    ensures
        string_views(r@) == dedup(string_views(v@)),
{
    let ghost all = string_views(v@);
    let mut out: Vec<String> = Vec::new();
    let mut i: usize = 0;
    while i < v.len()
        invariant
            i <= v.len(),
            all == string_views(v@),
            string_views(out@) == dedup(all.take(i as int)),
        decreases v.len() - i,
    {
        assert(all.take(i + 1).drop_last() =~= all.take(i as int));
        assert(all.take(i + 1).last() == v@[i as int]@);
        if !contains_string(&out, &v[i]) {
            let ghost before = out@;
            out.push(v[i].clone());
            assert(string_views(out@) =~= string_views(before).push(v@[i as int]@));
        }
        i += 1;
    }
    assert(all.take(v.len() as int) =~= all);
    out
}

} // verus!
