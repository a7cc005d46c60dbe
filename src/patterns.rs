//! Node selection by name pattern and by count.

use vstd::prelude::*;

use crate::counts::{count_views, get_node_over_count, nodes_at_least, NodeCount};
use crate::graph::{occurrences, triples_within, Graph};
use crate::seqs::{dedup, string_views};

verus! {

#[verifier::external_type_specification]
#[verifier::external_body]
pub struct ExRegexSet(regex::RegexSet);

#[verifier::external_type_specification]
#[verifier::external_body]
pub struct ExRegexError(regex::Error);

/// Whether the regular expression `pattern` matches somewhere in `text`.
pub uninterp spec fn regex_matches(pattern: Seq<char>, text: Seq<char>) -> bool;

/// Whether the regular expressions `patterns` compile together into one set.
pub uninterp spec fn regex_set_compiles(patterns: Seq<Seq<char>>) -> bool;

/// Whether some pattern of `patterns` matches somewhere in `text`; never
/// for an empty list.
pub open spec fn any_pattern_matches(patterns: Seq<Seq<char>>, text: Seq<char>) -> bool {
    exists|i: int| 0 <= i < patterns.len() && regex_matches(patterns[i], text)
}

/// Relies on regex::RegexSet::new: it fails exactly when the expressions do
/// not compile together, and an empty list always compiles.
#[verifier::external_body]
fn compile_set(patterns: &Vec<String>) -> (r: Result<regex::RegexSet, regex::Error>)
    ensures
        r.is_ok() == regex_set_compiles(string_views(patterns@)),
        patterns@.len() == 0 ==> r.is_ok(),
{
    regex::RegexSet::new(patterns)
}

/// A pattern could not be compiled.
#[derive(Debug)]
pub enum PatternError {
    Regex(regex::Error),
}

/// A list of regular expressions, compiled together; a text matches the set
/// when some expression matches somewhere in it.
#[derive(Debug)]
pub struct PatternSet {
    sources: Vec<String>,
    compiled: regex::RegexSet,
}

impl View for PatternSet {
    type V = Seq<Seq<char>>;

    /// The expressions, in the order given.
    closed spec fn view(&self) -> Seq<Seq<char>> {
        string_views(self.sources@)
    }
}

/// Relies on regex::RegexSet::is_match: true exactly when one of the
/// expressions that the set was compiled from (`PatternSet::new` is the only
/// way to build one) matches somewhere in `text`.
#[verifier::external_body]
fn set_matches(set: &PatternSet, text: &str) -> (r: bool)
    ensures
        r == (exists|i: int| 0 <= i < set@.len() && regex_matches(set@[i], text@)),
{
    set.compiled.is_match(text)
}

impl PatternSet {
    /// Compiles `patterns` into one set; fails when they do not compile.
    pub fn new(patterns: Vec<String>) -> (r: Result<PatternSet, PatternError>)
        ensures
            r.is_ok() == regex_set_compiles(string_views(patterns@)),
            r matches Ok(set) ==> set@ == string_views(patterns@),
    {
        match compile_set(&patterns) {
            Ok(compiled) => Ok(PatternSet { sources: patterns, compiled }),
            Err(e) => Err(PatternError::Regex(e)),
        }
    }

    /// For each text, whether the set matches it.
    pub fn matches_each(&self, texts: &Vec<String>) -> (r: Vec<bool>)
        ensures
            r@.len() == texts@.len(),
            forall|i: int|
                0 <= i < texts@.len() ==> r@[i] == any_pattern_matches(self@, #[trigger] texts@[i]@),
    {
        let mut out: Vec<bool> = Vec::new();
        let mut i: usize = 0;
        while i < texts.len()
            invariant
                i <= texts.len(),
                out@.len() == i,
                forall|k: int| 0 <= k < i ==> out@[k] == any_pattern_matches(self@, #[trigger] texts@[k]@),
            decreases texts.len() - i,
        {
            let m = set_matches(self, texts[i].as_str());
            out.push(m);
            i += 1;
        }
        out
    }
}

/// The elements `nodes[i]` with `keep_if[i]` and not `drop_if[i]`, in order.
pub open spec fn flagged(nodes: Seq<Seq<char>>, keep_if: Seq<bool>, drop_if: Seq<bool>) -> Seq<
    Seq<char>,
>
    decreases nodes.len(),
{
    if nodes.len() == 0 {
        nodes
    } else {
        let i = nodes.len() - 1;
        let rest = flagged(nodes.drop_last(), keep_if.take(i), drop_if.take(i));
        if keep_if[i] && !drop_if[i] {
            rest.push(nodes[i])
        } else {
            rest
        }
    }
}

/// The elements of `nodes` that match some pattern of `wanted` and no
/// pattern of `unwanted`, in order.
pub open spec fn pattern_survivors(
    nodes: Seq<Seq<char>>,
    wanted: Seq<Seq<char>>,
    unwanted: Seq<Seq<char>>,
) -> Seq<Seq<char>>
    decreases nodes.len(),
{
    if nodes.len() == 0 {
        nodes
    } else {
        let rest = pattern_survivors(nodes.drop_last(), wanted, unwanted);
        let n = nodes.last();
        if any_pattern_matches(wanted, n) && !any_pattern_matches(unwanted, n) {
            rest.push(n)
        } else {
            rest
        }
    }
}

/// The nodes `nodes[i]` with `keep_if[i]` set and `drop_if[i]` clear, in
/// order.
pub fn retain_flagged(nodes: &Vec<String>, keep_if: &Vec<bool>, drop_if: &Vec<bool>) -> (r: Vec<
    String,
>)
    requires
        keep_if@.len() == nodes@.len(),
        drop_if@.len() == nodes@.len(),
    ensures
        string_views(r@) == flagged(string_views(nodes@), keep_if@, drop_if@),
{
    let ghost all = string_views(nodes@);
    let mut out: Vec<String> = Vec::new();
    let mut i: usize = 0;
    while i < nodes.len()
        invariant
            i <= nodes.len(),
            all == string_views(nodes@),
            keep_if@.len() == nodes@.len(),
            drop_if@.len() == nodes@.len(),
            string_views(out@) == flagged(
                all.take(i as int),
                keep_if@.take(i as int),
                drop_if@.take(i as int),
            ),
        decreases nodes.len() - i,
    {
        assert(all.take(i + 1).drop_last() =~= all.take(i as int));
        assert(keep_if@.take(i + 1).take(i as int) =~= keep_if@.take(i as int));
        assert(drop_if@.take(i + 1).take(i as int) =~= drop_if@.take(i as int));
        if keep_if[i] && !drop_if[i] {
            let ghost before = out@;
            out.push(nodes[i].clone());
            assert(string_views(out@) =~= string_views(before).push(all[i as int]));
        }
        i += 1;
    }
    assert(all.take(nodes.len() as int) =~= all);
    assert(keep_if@.take(nodes.len() as int) =~= keep_if@);
    assert(drop_if@.take(nodes.len() as int) =~= drop_if@);
    out
}

proof fn lemma_flagged_by_patterns(
    nodes: Seq<Seq<char>>,
    keep_if: Seq<bool>,
    drop_if: Seq<bool>,
    wanted: Seq<Seq<char>>,
    unwanted: Seq<Seq<char>>,
)
    requires
        keep_if.len() == nodes.len(),
        drop_if.len() == nodes.len(),
        forall|i: int| 0 <= i < nodes.len() ==> keep_if[i] == any_pattern_matches(wanted, #[trigger] nodes[i]),
        forall|i: int| 0 <= i < nodes.len() ==> drop_if[i] == any_pattern_matches(unwanted, #[trigger] nodes[i]),
    ensures
        flagged(nodes, keep_if, drop_if) == pattern_survivors(nodes, wanted, unwanted),
    decreases nodes.len(),
{
    if nodes.len() > 0 {
        let i = nodes.len() - 1;
        let p = nodes.drop_last();
        assert forall|k: int| 0 <= k < p.len() implies keep_if.take(i)[k] == any_pattern_matches(wanted, #[trigger] p[k])
            && drop_if.take(i)[k] == any_pattern_matches(unwanted, p[k]) by {
            assert(p[k] == nodes[k]);
        }
        lemma_flagged_by_patterns(p, keep_if.take(i), drop_if.take(i), wanted, unwanted);
        assert(nodes.last() == nodes[i]);
    }
}

/// The nodes of `nodes` that match some pattern of `wanted` and none of
/// `unwanted`, in order.
pub fn select_by_patterns(nodes: &Vec<String>, wanted: &PatternSet, unwanted: &PatternSet) -> (r: Vec<String>)
    ensures
        string_views(r@) == pattern_survivors(string_views(nodes@), wanted@, unwanted@),
{
    let keep_if = wanted.matches_each(nodes);
    let drop_if = unwanted.matches_each(nodes);
    let r = retain_flagged(nodes, &keep_if, &drop_if);
    proof {
        let all = string_views(nodes@);
        assert forall|i: int| 0 <= i < all.len() implies keep_if@[i] == any_pattern_matches(wanted@, #[trigger] all[i])
            && drop_if@[i] == any_pattern_matches(unwanted@, all[i]) by {
            assert(all[i] == nodes@[i]@);
        }
        lemma_flagged_by_patterns(all, keep_if@, drop_if@, wanted@, unwanted@);
    }
    r
}

/// The nodes of `counts` whose count reaches `min_count` (inclusive), that
/// match some pattern of `wanted` and no pattern of `unwanted`, in table
/// order.
pub fn select_nodes(
    counts: &Vec<NodeCount>,
    min_count: usize,
    wanted: &PatternSet,
    unwanted: &PatternSet,
) -> (r: Vec<String>)
    ensures
        string_views(r@) == pattern_survivors(
            nodes_at_least(count_views(counts@), min_count as nat),
            wanted@,
            unwanted@,
        ),
{
    let frequent = get_node_over_count(counts, min_count);
    select_by_patterns(&frequent, wanted, unwanted)
}

impl Graph {
    /// The triples whose subject and object both match some pattern of
    /// `wanted_node_name_pattern` and none of `remove_node_name_pattern`.
    /// An empty `wanted_node_name_pattern` matches nothing.
    pub fn filter_by_pattern_nodes(
        &self,
        wanted_node_name_pattern: &PatternSet,
        remove_node_name_pattern: &PatternSet,
    ) -> (r: Graph)
        ensures
            r@.name == self@.name,
            r@.triples == triples_within(
                self@.triples,
                pattern_survivors(
                    dedup(occurrences(self@.triples)),
                    wanted_node_name_pattern@,
                    remove_node_name_pattern@,
                ),
            ),
            self.wf() ==> r.wf(),
    {
        let nodes = self.get_unique_node();
        let kept = select_by_patterns(&nodes, wanted_node_name_pattern, remove_node_name_pattern);
        self.filter_by_target_nodes(&kept)
    }
}

} // verus!
