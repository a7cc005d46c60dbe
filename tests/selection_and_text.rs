use kgraph::n3::n3_line_of;
use kgraph::patterns::{retain_flagged, select_by_patterns, select_nodes};
use kgraph::query::{
    query_1hop, query_2hop, resp1hop2triples, resp2hop2triples, Binding1Hop, Binding2Hop,
};
use kgraph::{Graph, NodeCount, PatternError, PatternSet, Triple};

fn t(s: &str, p: &str, o: &str) -> Triple {
    Triple::new(s, p, o)
}

fn nc(node: &str, count: usize) -> NodeCount {
    NodeCount { node: node.to_string(), count }
}

fn patterns(ps: &[&str]) -> PatternSet {
    PatternSet::new(ps.iter().map(|s| s.to_string()).collect()).unwrap()
}

fn strings(v: &[&str]) -> Vec<String> {
    v.iter().map(|s| s.to_string()).collect()
}

#[test]
fn selector_conjunction() {
    let counts = vec![nc("a", 5), nc("b", 1), nc("c", 5)];
    let wanted = patterns(&["^(a|c)$"]);
    let unwanted = patterns(&["^c$"]);
    assert_eq!(select_nodes(&counts, 5, &wanted, &unwanted), vec!["a"]);
}

#[test]
fn selector_with_threshold_one_and_catch_all_pattern_keeps_every_node() {
    let counts = vec![nc("a", 5), nc("b", 1), nc("c", 0)];
    let all = patterns(&[""]);
    let none = patterns(&[]);
    assert_eq!(select_nodes(&counts, 1, &all, &none), vec!["a", "b"]);
}

#[test]
fn empty_wanted_set_matches_nothing() {
    let counts = vec![nc("a", 5)];
    assert!(select_nodes(&counts, 0, &patterns(&[]), &patterns(&[])).is_empty());
}

#[test]
fn select_by_patterns_matches_anywhere_in_the_name() {
    let nodes = strings(&["http://x/Category:A", "http://x/Template:B", "http://x/C"]);
    let wanted = patterns(&["Category", "Template"]);
    let unwanted = patterns(&["Template:"]);
    assert_eq!(select_by_patterns(&nodes, &wanted, &unwanted), vec!["http://x/Category:A"]);
}

#[test]
fn invalid_pattern_is_an_error() {
    let r = PatternSet::new(vec!["(".to_string()]);
    assert!(matches!(r, Err(PatternError::Regex(_))));
}

#[test]
fn matches_each_reports_per_text() {
    let set = patterns(&["^a", "z$"]);
    assert_eq!(set.matches_each(&strings(&["ab", "xz", "b"])), vec![true, true, false]);
}

#[test]
fn retain_flagged_needs_keep_and_not_drop() {
    let nodes = strings(&["a", "b", "c", "d"]);
    let keep = vec![true, true, false, true];
    let drop = vec![false, true, false, false];
    assert_eq!(retain_flagged(&nodes, &keep, &drop), vec!["a", "d"]);
}

#[test]
fn filter_by_pattern_nodes_needs_both_ends() {
    let g = Graph::new(
        "g",
        vec![
            t("http://r/Category:A", "p", "http://r/Category:B"),
            t("http://r/Category:A", "p", "http://r/Template:C"),
            t("http://r/X", "p", "http://r/Category:B"),
        ],
    );
    let f = g.filter_by_pattern_nodes(&patterns(&["Category", "Template"]), &patterns(&["Template"]));
    assert_eq!(f.graph_name, "g");
    assert_eq!(f.triples, vec![t("http://r/Category:A", "p", "http://r/Category:B")]);
}

#[test]
fn filter_by_pattern_nodes_with_no_wanted_pattern_is_empty() {
    let g = Graph::new("g", vec![t("a", "p", "b")]);
    let f = g.filter_by_pattern_nodes(&patterns(&[]), &patterns(&[]));
    assert!(f.triples.is_empty());
}

#[test]
fn n3_line_is_exact() {
    assert_eq!(n3_line_of(&t("s", "p", "o")), "<s> <p> <o> .\n");
}

#[test]
fn round_trip_serialization() {
    let g = Graph::new(
        "g",
        vec![t("http://a", "http://p", "http://b"), t("http://b", "http://q", "http://a"), t("x", "y", "x")],
    );
    let text = g.to_n3();
    assert!(text.ends_with('\n'));
    let lines: Vec<&str> = text.lines().filter(|l| !l.is_empty()).collect();
    assert_eq!(lines.len(), g.triples.len());
    let mut parsed: Vec<Triple> = Vec::new();
    for l in &lines {
        let body = l.strip_prefix('<').unwrap().strip_suffix("> .").unwrap();
        let parts: Vec<&str> = body.split("> <").collect();
        assert_eq!(parts.len(), 3);
        parsed.push(t(parts[0], parts[1], parts[2]));
    }
    for tr in &g.triples {
        assert!(parsed.contains(tr));
        assert!(lines.contains(&format!("<{}> <{}> <{}> .", tr.subject, tr.predicate, tr.object).as_str()));
    }
    for p in &parsed {
        assert!(g.triples.contains(p));
    }
}

#[test]
fn n3_text_has_no_escaping() {
    let g = Graph::new("g", vec![t("a b", "p\"q", "é")]);
    assert_eq!(g.to_n3(), "<a b> <p\"q> <é> .\n");
}

#[test]
fn query_1hop_text() {
    let q = query_1hop("ローソン", &vec!["A", "B"], &vec!["C"]);
    let expected = "\n        PREFIX rdfs: <http://www.w3.org/2000/01/rdf-schema#>\n        SELECT ?p1 ?o1\n        WHERE {\n            <http://ja.dbpedia.org/resource/ローソン> ?p1 ?o1 .\n            FILTER regex(?o1, \"^(?=A)(?=B)(?!C)\")\n        }\n        ";
    assert_eq!(q, expected);
}

#[test]
fn query_1hop_without_patterns() {
    let q = query_1hop("x", &vec![], &vec![]);
    assert!(q.contains("<http://ja.dbpedia.org/resource/x> ?p1 ?o1 ."));
    assert!(q.contains("FILTER regex(?o1, \"^\")"));
}

#[test]
fn query_2hop_text() {
    let q = query_2hop("x");
    let expected = "\n        PREFIX rdfs: <http://www.w3.org/2000/01/rdf-schema#>\n        SELECT ?p1 ?o1 ?p2 ?o2\n        WHERE {\n            <http://ja.dbpedia.org/resource/x> ?p1 ?o1 .\n            ?o1 ?p2 ?o2 .\n        }\n        ";
    assert_eq!(q, expected);
}

#[test]
fn one_hop_rows_become_triples_from_the_resource() {
    let rows = vec![
        Binding1Hop { p1: "p".to_string(), o1: "o".to_string() },
        Binding1Hop { p1: "q".to_string(), o1: "r".to_string() },
    ];
    let ts = resp1hop2triples(&rows, "w");
    assert_eq!(
        ts,
        vec![
            t("http://ja.dbpedia.org/resource/w", "p", "o"),
            t("http://ja.dbpedia.org/resource/w", "q", "r"),
        ]
    );
}

#[test]
fn two_hop_rows_become_two_triples_each() {
    let rows = vec![Binding2Hop {
        p1: "p".to_string(),
        o1: "o".to_string(),
        p2: "q".to_string(),
        o2: "z".to_string(),
    }];
    let ts = resp2hop2triples(&rows, "w");
    assert_eq!(ts, vec![t("http://ja.dbpedia.org/resource/w", "p", "o"), t("o", "q", "z")]);
}
