use kgraph::counts::{count_nodes, get_node_over_count, sum_node_counts};
use kgraph::graph::{contains_string, dedup_triples};
use kgraph::{Graph, NodeCount, Triple};

fn t(s: &str, p: &str, o: &str) -> Triple {
    Triple::new(s, p, o)
}

fn nc(node: &str, count: usize) -> NodeCount {
    NodeCount { node: node.to_string(), count }
}

fn sorted(mut v: Vec<String>) -> Vec<String> {
    v.sort();
    v
}

fn count_of(table: &[NodeCount], node: &str) -> Option<usize> {
    table.iter().find(|e| e.node == node).map(|e| e.count)
}

fn is_desc(table: &[NodeCount]) -> bool {
    table.windows(2).all(|w| w[0].count >= w[1].count)
}

#[test]
fn new_drops_repeated_triples_keeping_first_order() {
    let g = Graph::new(
        "g",
        vec![t("a", "p", "b"), t("b", "q", "c"), t("a", "p", "b"), t("c", "r", "a")],
    );
    assert_eq!(g.graph_name, "g");
    assert_eq!(
        g.triples,
        vec![t("a", "p", "b"), t("b", "q", "c"), t("c", "r", "a")]
    );
}

#[test]
fn new_keeps_triples_that_differ_in_one_part() {
    let g = Graph::new("g", vec![t("a", "p", "b"), t("a", "q", "b"), t("a", "p", "c")]);
    assert_eq!(g.triples.len(), 3);
}

#[test]
fn dedup_idempotence() {
    let ts = vec![t("a", "p", "b"), t("b", "p", "c"), t("a", "p", "b")];
    let mut twice = ts.clone();
    twice.extend(ts.clone());
    let once = Graph::new("x", ts);
    let doubled = Graph::new("x", twice);
    assert_eq!(once.triples, doubled.triples);
    assert_eq!(dedup_triples(&once.triples), once.triples);
}

#[test]
fn filter_is_subset() {
    let g = Graph::new(
        "g",
        vec![t("a", "p", "b"), t("b", "p", "c"), t("c", "p", "a"), t("a", "p", "a")],
    );
    let target = vec!["a".to_string(), "b".to_string()];
    let f = g.filter_by_target_nodes(&target);
    assert_eq!(f.graph_name, "g");
    assert_eq!(f.triples, vec![t("a", "p", "b"), t("a", "p", "a")]);
    for tr in &f.triples {
        assert!(g.triples.contains(tr));
        assert!(target.contains(&tr.subject) && target.contains(&tr.object));
    }
}

#[test]
fn filter_drops_edges_with_one_excluded_end() {
    let g = Graph::new("g", vec![t("a", "p", "z")]);
    let f = g.filter_by_target_nodes(&vec!["a".to_string()]);
    assert!(f.triples.is_empty());
}

#[test]
fn self_loop_survives_when_its_node_qualifies() {
    let g = Graph::new("g", vec![t("a", "p", "a")]);
    let f = g.filter_by_target_nodes(&vec!["a".to_string()]);
    assert_eq!(f.triples, vec![t("a", "p", "a")]);
}

#[test]
fn frequency_of_single_triple() {
    let g = Graph::new("g", vec![t("a", "p", "b")]);
    let freq = g.group_by_node_count();
    assert_eq!(freq.len(), 2);
    assert_eq!(count_of(&freq, "a"), Some(1));
    assert_eq!(count_of(&freq, "b"), Some(1));
}

#[test]
fn frequency_of_self_loop() {
    let g = Graph::new("g", vec![t("a", "p", "a")]);
    let freq = g.group_by_node_count();
    assert_eq!(freq.len(), 1);
    assert_eq!(freq[0].node, "a");
    assert_eq!(freq[0].count, 2);
}

#[test]
fn frequencies_count_edges_not_nodes_and_sort_descending() {
    let g = Graph::new(
        "g",
        vec![t("s", "p", "x"), t("s", "q", "x"), t("s", "r", "x"), t("y", "p", "z")],
    );
    let freq = g.group_by_node_count();
    assert_eq!(freq.len(), 4);
    assert_eq!(count_of(&freq, "x"), Some(3));
    assert_eq!(count_of(&freq, "s"), Some(3));
    assert_eq!(count_of(&freq, "y"), Some(1));
    assert_eq!(count_of(&freq, "z"), Some(1));
    assert!(is_desc(&freq));
    assert_eq!(freq[0].count, 3);
}

#[test]
fn get_node_lists_subjects_then_objects() {
    let g = Graph::new("g", vec![t("a", "p", "b"), t("c", "p", "b")]);
    assert_eq!(g.get_node(), vec!["a", "c", "b", "b"]);
}

#[test]
fn unique_nodes_are_each_endpoint_once() {
    let g = Graph::new("g", vec![t("a", "p", "b"), t("c", "p", "b"), t("b", "p", "a")]);
    assert_eq!(g.get_unique_node(), vec!["a", "c", "b"]);
}

#[test]
fn count_nodes_counts_each_occurrence() {
    let nodes: Vec<String> = ["x", "y", "x", "z", "x", "y"].iter().map(|s| s.to_string()).collect();
    let table = count_nodes(&nodes);
    assert_eq!(table.len(), 3);
    assert_eq!(table[0].node, "x");
    assert_eq!(table[0].count, 3);
    assert_eq!(table[1].node, "y");
    assert_eq!(table[1].count, 2);
    assert_eq!(table[2].node, "z");
    assert_eq!(table[2].count, 1);
}

#[test]
fn reducer_additivity() {
    let tables = vec![vec![nc("x", 2)], vec![nc("x", 3)]];
    let r = sum_node_counts(&tables);
    assert_eq!(r.len(), 1);
    assert_eq!(r[0].node, "x");
    assert_eq!(r[0].count, 5);
}

#[test]
fn reducer_keeps_nodes_of_every_table_sorted() {
    let tables = vec![vec![nc("a", 3), nc("b", 1)], vec![nc("b", 4), nc("c", 0)], vec![]];
    let r = sum_node_counts(&tables);
    assert_eq!(r.len(), 3);
    assert_eq!(count_of(&r, "a"), Some(3));
    assert_eq!(count_of(&r, "b"), Some(5));
    assert_eq!(count_of(&r, "c"), Some(0));
    assert!(is_desc(&r));
    assert_eq!(r[0].node, "b");
}

#[test]
fn reducer_of_no_tables_is_empty() {
    assert!(sum_node_counts(&vec![]).is_empty());
}

#[test]
fn reduce_node_counts_sums_graph_frequencies() {
    let g1 = Graph::new("g1", vec![t("x", "p", "y"), t("x", "q", "z")]);
    let g2 = Graph::new("g2", vec![t("w", "p", "x")]);
    let r = kgraph::merge::reduce_node_counts(&vec![g1, g2]);
    assert_eq!(count_of(&r, "x"), Some(3));
    assert_eq!(count_of(&r, "y"), Some(1));
    assert_eq!(count_of(&r, "z"), Some(1));
    assert_eq!(count_of(&r, "w"), Some(1));
    assert_eq!(r.len(), 4);
    assert_eq!(r[0].node, "x");
}

#[test]
fn node_over_count_threshold_is_inclusive() {
    let table = vec![nc("a", 5), nc("b", 2), nc("c", 1)];
    assert_eq!(get_node_over_count(&table, 2), vec!["a", "b"]);
    assert_eq!(get_node_over_count(&table, 6), Vec::<String>::new());
    assert_eq!(get_node_over_count(&table, 0), vec!["a", "b", "c"]);
}

#[test]
fn contains_string_finds_exact_match_only() {
    let v = vec!["ab".to_string(), "c".to_string()];
    assert!(contains_string(&v, &"c".to_string()));
    assert!(!contains_string(&v, &"a".to_string()));
}

#[test]
fn merge_drops_cross_graph_duplicates() {
    let g1 = Graph::new("g1", vec![t("a", "p", "b")]);
    let g2 = Graph::new("g2", vec![t("a", "p", "b")]);
    let m = kgraph::merge::merge_graphs(&vec![g1, g2], "both");
    assert_eq!(m.graph_name, "both");
    assert_eq!(m.triples, vec![t("a", "p", "b")]);
}

#[test]
fn concat_graphs_keeps_every_triple_under_all() {
    let g1 = Graph::new("g1", vec![t("a", "p", "b"), t("b", "p", "c")]);
    let g2 = Graph::new("g2", vec![t("b", "p", "c"), t("c", "p", "d")]);
    let m = kgraph::merge::concat_graphs(&vec![g1, g2]);
    assert_eq!(m.graph_name, "all");
    assert_eq!(
        m.triples,
        vec![t("a", "p", "b"), t("b", "p", "c"), t("c", "p", "d")]
    );
}

#[test]
fn multi_edge_graph_keeps_edges_between_well_connected_nodes() {
    let g1 = Graph::new("g1", vec![t("a", "p", "b"), t("a", "q", "c")]);
    let g2 = Graph::new("g2", vec![t("b", "p", "a"), t("d", "p", "a")]);
    let kg = kgraph::merge::multi_edge_graph(&vec![g1, g2], 2);
    assert_eq!(kg.graph_name, "all");
    assert_eq!(kg.triples, vec![t("a", "p", "b"), t("b", "p", "a")]);
}

#[test]
fn empty_input() {
    let g = Graph::new("empty", vec![]);
    assert!(g.triples.is_empty());
    assert!(g.get_unique_node().is_empty());
    assert!(g.group_by_node_count().is_empty());
    assert_eq!(g.to_n3(), "");
    assert!(kgraph::merge::reduce_node_counts(&vec![g]).is_empty());
}

#[test]
fn sorting_by_count_keeps_entries() {
    let r = kgraph::counts::sort_by_count(&vec![nc("a", 1), nc("b", 3), nc("c", 2), nc("d", 3)]);
    let names: Vec<&str> = r.iter().map(|e| e.node.as_str()).collect();
    assert_eq!(names, vec!["b", "d", "c", "a"]);
    assert_eq!(sorted(r.iter().map(|e| e.node.clone()).collect()), vec!["a", "b", "c", "d"]);
}
