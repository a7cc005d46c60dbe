//! SPARQL query texts for a search term, and the triples read back from the
//! rows of an answer.

use vstd::prelude::*;

use crate::graph::{triple_views, Triple, TripleView};

verus! {

/// Where the resource named after a search term lives.
pub const RESOURCE_BASE: &'static str = "http://ja.dbpedia.org/resource/";

/// The one-edge query up to the search term.
pub const HOP1_HEAD: &'static str = "\n        PREFIX rdfs: <http://www.w3.org/2000/01/rdf-schema#>\n        SELECT ?p1 ?o1\n        WHERE {\n            <http://ja.dbpedia.org/resource/";

/// The one-edge query from the search term to the object filter's patterns.
pub const HOP1_MIDDLE: &'static str = "> ?p1 ?o1 .\n            FILTER regex(?o1, \"^";

/// The one-edge query after the object filter's patterns.
pub const HOP1_TAIL: &'static str = "\")\n        }\n        ";

/// The two-edge query up to the search term.
pub const HOP2_HEAD: &'static str = "\n        PREFIX rdfs: <http://www.w3.org/2000/01/rdf-schema#>\n        SELECT ?p1 ?o1 ?p2 ?o2\n        WHERE {\n            <http://ja.dbpedia.org/resource/";

/// The two-edge query after the search term.
pub const HOP2_TAIL: &'static str = "> ?p1 ?o1 .\n            ?o1 ?p2 ?o2 .\n        }\n        ";

/// Opens a lookahead that the object must match.
pub const LOOKAHEAD: &'static str = "(?=";

/// Opens a lookahead that the object must not match.
pub const NEGATIVE_LOOKAHEAD: &'static str = "(?!";

/// Closes a lookahead.
pub const GROUP_END: &'static str = ")";

/// The character sequences held by a sequence of string slices.
pub open spec fn str_views(v: Seq<&str>) -> Seq<Seq<char>> {
    v.map_values(|s: &str| s@)
}

/// `opener + p + ")"` for each pattern `p`, joined with nothing between.
pub open spec fn lookaheads(patterns: Seq<Seq<char>>, opener: Seq<char>) -> Seq<char>
    decreases patterns.len(),
{
    if patterns.len() == 0 {
        Seq::empty()
    } else {
        lookaheads(patterns.drop_last(), opener) + opener + patterns.last() + GROUP_END@
    }
}

fn append_lookaheads(out: &mut String, patterns: &Vec<&str>, opener: &str)
    ensures
        final(out)@ == old(out)@ + lookaheads(str_views(patterns@), opener@),
{
    let ghost ps = str_views(patterns@);
    let ghost start = out@;
    let mut i: usize = 0;
    while i < patterns.len()
        invariant
            i <= patterns.len(),
            ps == str_views(patterns@),
            start == old(out)@,
            out@ == start + lookaheads(ps.take(i as int), opener@),
        decreases patterns.len() - i,
    {
        out.append(opener);
        out.append(patterns[i]);
        out.append(GROUP_END);
        assert(ps.take(i + 1).drop_last() =~= ps.take(i as int));
        assert(ps.take(i + 1).last() == patterns@[i as int]@);
        assert(out@ =~= start + lookaheads(ps.take(i + 1), opener@));
        i += 1;
    }
    assert(ps.take(patterns.len() as int) =~= ps);
}

/// The query for the predicates and objects of the resource named
/// `search_word` whose object matches, from its start, every pattern of
/// `wanted` and none of `unwanted` (as lookaheads of one regex filter).
pub fn query_1hop(search_word: &str, wanted: &Vec<&str>, unwanted: &Vec<&str>) -> (r: String)
    ensures
        r@ == HOP1_HEAD@ + search_word@ + HOP1_MIDDLE@ + lookaheads(str_views(wanted@), LOOKAHEAD@)
            + lookaheads(str_views(unwanted@), NEGATIVE_LOOKAHEAD@) + HOP1_TAIL@,
{
    let mut q = String::new();
    q.append(HOP1_HEAD);
    q.append(search_word);
    q.append(HOP1_MIDDLE);
    append_lookaheads(&mut q, wanted, LOOKAHEAD);
    append_lookaheads(&mut q, unwanted, NEGATIVE_LOOKAHEAD);
    q.append(HOP1_TAIL);
    assert(q@ =~= HOP1_HEAD@ + search_word@ + HOP1_MIDDLE@ + lookaheads(str_views(wanted@), LOOKAHEAD@)
        + lookaheads(str_views(unwanted@), NEGATIVE_LOOKAHEAD@) + HOP1_TAIL@);
    q
}

/// The query for the paths of two edges that start at the resource named
/// `search_word`.
pub fn query_2hop(search_word: &str) -> (r: String)
    ensures
        r@ == HOP2_HEAD@ + search_word@ + HOP2_TAIL@,
{
    let mut q = String::new();
    q.append(HOP2_HEAD);
    q.append(search_word);
    q.append(HOP2_TAIL);
    assert(q@ =~= HOP2_HEAD@ + search_word@ + HOP2_TAIL@);
    q
}

/// One row of a one-edge answer: the values bound to `?p1` and `?o1`.
#[derive(Debug, Clone)]
pub struct Binding1Hop {
    pub p1: String,
    pub o1: String,
}

/// One row of a two-edge answer: the values bound to `?p1 ?o1 ?p2 ?o2`.
#[derive(Debug, Clone)]
pub struct Binding2Hop {
    pub p1: String,
    pub o1: String,
    pub p2: String,
    pub o2: String,
}

/// The resource IRI of a search term.
pub open spec fn resource_of(search_word: Seq<char>) -> Seq<char> {
    RESOURCE_BASE@ + search_word
}

/// The triples of a one-edge answer: `(resource, p1, o1)` per row.
pub open spec fn hop1_triples(rows: Seq<Binding1Hop>, search_word: Seq<char>) -> Seq<TripleView> {
    rows.map_values(
        |b: Binding1Hop|
            TripleView { subject: resource_of(search_word), predicate: b.p1@, object: b.o1@ },
    )
}

/// The triples of a two-edge answer: `(resource, p1, o1)` then
/// `(o1, p2, o2)` per row.
pub open spec fn hop2_triples(rows: Seq<Binding2Hop>, search_word: Seq<char>) -> Seq<TripleView>
    decreases rows.len(),
{
    if rows.len() == 0 {
        Seq::empty()
    } else {
        let b = rows.last();
        hop2_triples(rows.drop_last(), search_word).push(
            TripleView { subject: resource_of(search_word), predicate: b.p1@, object: b.o1@ },
        ).push(TripleView { subject: b.o1@, predicate: b.p2@, object: b.o2@ })
    }
}

fn resource_iri(search_word: &str) -> (r: String)
    ensures
        r@ == resource_of(search_word@),
{
    let mut s = String::new();
    s.append(RESOURCE_BASE);
    s.append(search_word);
    assert(s@ =~= resource_of(search_word@));
    s
}

/// The triples of the rows of a one-edge answer for `search_word`.
pub fn resp1hop2triples(rows: &Vec<Binding1Hop>, search_word: &str) -> (r: Vec<Triple>)
    ensures
        triple_views(r@) == hop1_triples(rows@, search_word@),
{
    let ghost want = hop1_triples(rows@, search_word@);
    let mut out: Vec<Triple> = Vec::new();
    let mut i: usize = 0;
    while i < rows.len()
        invariant
            i <= rows.len(),
            want == hop1_triples(rows@, search_word@),
            triple_views(out@) =~= want.take(i as int),
        decreases rows.len() - i,
    {
        let ghost before = out@;
        let t = Triple { subject: resource_iri(search_word), predicate: rows[i].p1.clone(), object: rows[i].o1.clone() };
        out.push(t);
        assert(triple_views(out@) =~= triple_views(before).push(want[i as int]));
        i += 1;
    }
    out
}

/// The triples of the rows of a two-edge answer for `search_word`.
pub fn resp2hop2triples(rows: &Vec<Binding2Hop>, search_word: &str) -> (r: Vec<Triple>)
    ensures
        triple_views(r@) == hop2_triples(rows@, search_word@),
{
    let mut out: Vec<Triple> = Vec::new();
    let mut i: usize = 0;
    while i < rows.len()
        invariant
            i <= rows.len(),
            triple_views(out@) == hop2_triples(rows@.take(i as int), search_word@),
        decreases rows.len() - i,
    {
        let ghost before = out@;
        let b = &rows[i];
        let first = Triple { subject: resource_iri(search_word), predicate: b.p1.clone(), object: b.o1.clone() };
        let second = Triple { subject: b.o1.clone(), predicate: b.p2.clone(), object: b.o2.clone() };
        let ghost v1 = first@;
        let ghost v2 = second@;
        out.push(first);
        out.push(second);
        assert(triple_views(out@) =~= triple_views(before).push(v1).push(v2));
        assert(rows@.take(i + 1).drop_last() =~= rows@.take(i as int));
        assert(rows@.take(i + 1).last() == rows@[i as int]);
        i += 1;
    }
    assert(rows@.take(rows.len() as int) =~= rows@);
    out
}

} // verus!
